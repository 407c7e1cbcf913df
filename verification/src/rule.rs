//! Rules: what they compare, and which slots they mean for a task.

use crate::models::{opt_text, texts, Matcher, MatcherView, Strategy, StrategyView, Task, TaskRow};
use crate::tally::{count, lemma_count_take};
use crate::text::{
    begins_with, decimal, lemma_before_total, lemma_before_transitive, lemma_decimal,
    lemma_not_before_itself, text_before, text_order, to_decimal, TextOrder,
};
use vstd::prelude::*;

verus! {

// ---------------------------------------------------------------------------
// Fields of metadata
// ---------------------------------------------------------------------------

/// What a text of JSON holds under a name, by `serde_json`: the value of that member,
/// written out, where the text is an object that has it.
pub uninterp spec fn json_member(json: Seq<char>, name: Seq<char>) -> Option<Seq<char>>;

/// The value of a member of a JSON object: `serde_json::from_str`, `Value::get` with the
/// name, and the found value's `to_string`. `None` where the text is not JSON, is not an
/// object or lacks the member. The result is a function of the two texts alone; the
/// grammar of JSON is left to that crate.
#[verifier::external_body]
fn member(json: &str, name: &str) -> (r: Option<String>)
    ensures
        opt_text(r) == json_member(json@, name@),
{
    match serde_json::from_str::<serde_json::Value>(json) {
        Ok(v) => match v.get(name) {
            Some(x) => Some(x.to_string()),
            None => None,
        },
        Err(_) => None,
    }
}

/// The first of the fields that the metadata lacks.
pub open spec fn first_missing(metadata: Seq<char>, fields: Seq<Seq<char>>) -> Option<Seq<char>>
    decreases fields.len(),
{
    if fields.len() == 0 {
        None
    } else {
        match first_missing(metadata, fields.drop_last()) {
            Some(f) => Some(f),
            None => match json_member(metadata, fields.last()) {
                Some(_) => None,
                None => Some(fields.last()),
            },
        }
    }
}

/// The metadata has every one of the fields.
pub open spec fn has_fields(metadata: Seq<char>, fields: Seq<Seq<char>>) -> bool {
    forall|i: int|
        0 <= i < fields.len() ==> json_member(metadata, #[trigger] fields[i]) is Some
}

// ---------------------------------------------------------------------------
// Fields in order
// ---------------------------------------------------------------------------

/// The texts that come before `x`.
pub open spec fn before(x: Seq<char>) -> spec_fn(Seq<char>) -> bool {
    |y: Seq<char>| text_before(y, x)
}

/// Ordered texts with one more, at its place, unless it is there.
pub open spec fn put_in(s: Seq<Seq<char>>, x: Seq<char>) -> Seq<Seq<char>> {
    let p = count(s, before(x)) as int;
    if p < s.len() && s[p] == x {
        s
    } else {
        s.insert(p, x)
    }
}

/// Texts in order, each once.
pub open spec fn ordered(s: Seq<Seq<char>>) -> Seq<Seq<char>>
    decreases s.len(),
{
    if s.len() == 0 {
        Seq::empty()
    } else {
        put_in(ordered(s.drop_last()), s.last())
    }
}

/// Texts in order, each once.
pub fn in_order(v: &Vec<String>) -> (r: Vec<String>)
    ensures
        texts(r@) == ordered(texts(v@)),
{
    let ghost all = texts(v@);
    let mut r: Vec<String> = Vec::new();
    let mut i: usize = 0;
    proof {
        assert(all.take(0) =~= Seq::empty());
        assert(texts(r@) =~= Seq::empty());
    }
    while i < v.len()
        invariant
            i <= v.len(),
            all == texts(v@),
            texts(r@) == ordered(all.take(i as int)),
        decreases v.len() - i,
    {
        let x: &String = &v[i];
        let ghost s = texts(r@);
        let ghost held = r@;
        let mut p: usize = 0;
        let mut k: usize = 0;
        while k < r.len()
            invariant
                k <= r.len(),
                s == texts(r@),
                p == count(s.take(k as int), before(x@)),
                p <= k,
            decreases r.len() - k,
        {
            proof {
                lemma_count_take(s, before(x@), k as int);
                assert(s[k as int] == r@[k as int]@);
            }
            match text_order(r[k].as_str(), x.as_str()) {
                TextOrder::Before => {
                    p += 1;
                },
                _ => {},
            }
            k += 1;
        }
        proof {
            assert(s.take(k as int) =~= s);
            assert(all.take(i + 1).drop_last() =~= all.take(i as int));
            assert(all.take(i + 1).last() == x@);
            if p < r@.len() {
                assert(s[p as int] == r@[p as int]@);
            }
        }
        if p == r.len() || r[p] != *x {
            r.insert(p, x.clone());
            assert(texts(r@) =~= s.insert(p as int, x@));
        }
        i += 1;
    }
    assert(all.take(i as int) =~= all);
    r
}

/// Texts that are in order, each once.
pub open spec fn is_ordered(s: Seq<Seq<char>>) -> bool {
    forall|i: int, j: int|
        #![trigger s[i], s[j]]
        0 <= i < j < s.len() ==> text_before(s[i], s[j])
}

/// Putting a text at its place keeps the order, and adds just that text.
proof fn lemma_put_in(s: Seq<Seq<char>>, x: Seq<char>)
    requires
        is_ordered(s),
    ensures
        is_ordered(put_in(s, x)),
        forall|y: Seq<char>| #[trigger] put_in(s, x).contains(y) <==> s.contains(y) || y == x,
{
    let p = count(s, before(x)) as int;
    lemma_place(s, x);
    let r = put_in(s, x);
    if p < s.len() && s[p] == x {
        assert(s.contains(x));
    } else {
        assert forall|i: int| p <= i < s.len() implies text_before(x, #[trigger] s[i]) by {
            lemma_before_total(s[i], x);
            if s[i] == x && i > p {
                assert(text_before(s[p], s[i]));
            }
        }
        assert forall|i: int, j: int|
            #![trigger r[i], r[j]]
            0 <= i < j < r.len() implies text_before(r[i], r[j]) by {
            if i < p && j < p {
                assert(text_before(s[i], s[j]));
            } else if i < p && j > p {
                assert(text_before(s[i], s[j - 1]));
            } else if i > p {
                assert(text_before(s[i - 1], s[j - 1]));
            }
        }
        assert forall|y: Seq<char>| #[trigger] r.contains(y) <==> s.contains(y) || y == x by {
            if s.contains(y) {
                let i = choose|i: int| 0 <= i < s.len() && s[i] == y;
                if i < p {
                    assert(r[i] == y);
                } else {
                    assert(r[i + 1] == y);
                }
            }
            assert(r[p] == x);
            if r.contains(y) && y != x {
                let i = choose|i: int| 0 <= i < r.len() && r[i] == y;
                if i < p {
                    assert(s[i] == y);
                } else {
                    assert(s[i - 1] == y);
                }
            }
        }
    }
}

/// The texts before `x` are the first ones of ordered texts.
proof fn lemma_place(s: Seq<Seq<char>>, x: Seq<char>)
    requires
        is_ordered(s),
    ensures
        count(s, before(x)) <= s.len(),
        forall|i: int|
            0 <= i < s.len() ==> (text_before(#[trigger] s[i], x) <==> i < count(s, before(x))),
    decreases s.len(),
{
    if s.len() > 0 {
        let init = s.drop_last();
        let n = s.len() - 1;
        assert(is_ordered(init)) by {
            assert forall|i: int, j: int|
                #![trigger init[i], init[j]]
                0 <= i < j < init.len() implies text_before(init[i], init[j]) by {
                assert(text_before(s[i], s[j]));
            }
        }
        lemma_place(init, x);
        if text_before(s[n], x) {
            assert forall|i: int| 0 <= i < n implies text_before(#[trigger] init[i], x) by {
                assert(text_before(s[i], s[n]));
                lemma_before_transitive(s[i], s[n], x);
            }
            if count(init, before(x)) < n {
                assert(!text_before(init[count(init, before(x)) as int], x));
            }
        }
        assert forall|i: int| 0 <= i < s.len() implies (text_before(#[trigger] s[i], x) <==> i
            < count(s, before(x))) by {
            if i < n {
                assert(init[i] == s[i]);
            }
        }
    }
}

/// Putting texts in order keeps each of them, once.
pub proof fn lemma_ordered(s: Seq<Seq<char>>)
    ensures
        is_ordered(ordered(s)),
        forall|y: Seq<char>| #[trigger] ordered(s).contains(y) <==> s.contains(y),
    decreases s.len(),
{
    if s.len() > 0 {
        lemma_ordered(s.drop_last());
        lemma_put_in(ordered(s.drop_last()), s.last());
        assert forall|y: Seq<char>| #[trigger] ordered(s).contains(y) <==> s.contains(y) by {
            if s.contains(y) {
                let i = choose|i: int| 0 <= i < s.len() && s[i] == y;
                if i < s.len() - 1 {
                    assert(s.drop_last()[i] == y);
                }
            }
            if s.drop_last().contains(y) {
                let i = choose|i: int| 0 <= i < s.len() - 1 && s.drop_last()[i] == y;
                assert(s[i] == y);
            }
            assert(s[s.len() - 1] == s.last());
        }
    }
}

/// Ordered texts are told by which texts they are.
proof fn lemma_same_order(a: Seq<Seq<char>>, b: Seq<Seq<char>>)
    requires
        is_ordered(a),
        is_ordered(b),
        forall|y: Seq<char>| #[trigger] a.contains(y) <==> b.contains(y),
    ensures
        a == b,
    decreases a.len() + b.len(),
{
    if a.len() == 0 {
        if b.len() > 0 {
            assert(b.contains(b[0]));
            assert(a.contains(b[0]));
        }
        assert(a =~= b);
    } else if b.len() == 0 {
        assert(a.contains(a[0]));
        assert(b.contains(a[0]));
    } else {
        let x = a.last();
        let y = b.last();
        lemma_last_is_greatest(a);
        lemma_last_is_greatest(b);
        assert(a.contains(x));
        assert(b.contains(y));
        assert(x == y) by {
            if x != y {
                assert(b.contains(x));
                assert(a.contains(y));
                lemma_before_transitive(x, y, x);
                lemma_not_before_itself(x);
            }
        }
        let ia = a.drop_last();
        let ib = b.drop_last();
        lemma_ordered_init(a);
        lemma_ordered_init(b);
        assert forall|z: Seq<char>| #[trigger] ia.contains(z) <==> ib.contains(z) by {
            assert(a.contains(z) <==> b.contains(z));
        }
        lemma_same_order(ia, ib);
        assert(a =~= ia.push(x));
        assert(b =~= ib.push(y));
    }
}

proof fn lemma_last_is_greatest(s: Seq<Seq<char>>)
    requires
        is_ordered(s),
        s.len() > 0,
    ensures
        forall|z: Seq<char>| #[trigger] s.contains(z) && z != s.last() ==> text_before(z, s.last()),
{
    assert forall|z: Seq<char>| #[trigger] s.contains(z) && z != s.last() implies text_before(
        z,
        s.last(),
    ) by {
        let i = choose|i: int| 0 <= i < s.len() && s[i] == z;
        assert(text_before(s[i], s[s.len() - 1]));
    }
}

proof fn lemma_ordered_init(s: Seq<Seq<char>>)
    requires
        is_ordered(s),
        s.len() > 0,
    ensures
        is_ordered(s.drop_last()),
        forall|z: Seq<char>| #[trigger]
            s.drop_last().contains(z) <==> s.contains(z) && z != s.last(),
{
    let init = s.drop_last();
    assert forall|i: int, j: int|
        #![trigger init[i], init[j]]
        0 <= i < j < init.len() implies text_before(init[i], init[j]) by {
        assert(text_before(s[i], s[j]));
    }
    assert forall|z: Seq<char>| #[trigger] init.contains(z) <==> s.contains(z) && z != s.last() by {
        if init.contains(z) {
            let i = choose|i: int| 0 <= i < init.len() && init[i] == z;
            assert(s[i] == z);
            assert(text_before(s[i], s[s.len() - 1]));
            lemma_not_before_itself(z);
        }
        if s.contains(z) && z != s.last() {
            let i = choose|i: int| 0 <= i < s.len() && s[i] == z;
            assert(init[i] == z);
        }
    }
}

// ---------------------------------------------------------------------------
// What a rule compares
// ---------------------------------------------------------------------------

/// The fields and their values in the metadata.
pub open spec fn extracted(metadata: Seq<char>, fields: Seq<Seq<char>>) -> Seq<
    (Seq<char>, Seq<char>),
> {
    Seq::new(fields.len(), |i: int| (fields[i], json_member(metadata, fields[i])->0))
}

/// The views of pairs of texts.
pub open spec fn text_pairs(v: Seq<(String, String)>) -> Seq<(Seq<char>, Seq<char>)> {
    v.map_values(|p: (String, String)| (p.0@, p.1@))
}

proof fn lemma_none_missing(metadata: Seq<char>, fields: Seq<Seq<char>>)
    ensures
        first_missing(metadata, fields) is None <==> has_fields(metadata, fields),
    decreases fields.len(),
{
    if fields.len() > 0 {
        let init = fields.drop_last();
        lemma_none_missing(metadata, init);
        if has_fields(metadata, fields) {
            assert forall|i: int| 0 <= i < init.len() implies json_member(
                metadata,
                #[trigger] init[i],
            ) is Some by {
                assert(init[i] == fields[i]);
            }
            assert(fields[fields.len() - 1] == fields.last());
        }
        if first_missing(metadata, fields) is None {
            assert forall|i: int| 0 <= i < fields.len() implies json_member(
                metadata,
                #[trigger] fields[i],
            ) is Some by {
                if i < init.len() {
                    assert(init[i] == fields[i]);
                }
            }
        }
    }
}

/// The values that a rule compares, in the order of their fields, or the first of its
/// fields that the metadata lacks.
pub fn extract_metadata_fields(m: &Matcher, metadata: &str) -> (r: Result<
    Vec<(String, String)>,
    String,
>)
    ensures
        match r {
            Ok(pairs) => {
                &&& first_missing(metadata@, m@.fields) is None
                &&& text_pairs(pairs@) == extracted(metadata@, ordered(m@.fields))
            },
            Err(f) => first_missing(metadata@, m@.fields) == Some(f@),
        },
{
    let ghost all = m@.fields;
    let mut i: usize = 0;
    assert(all.take(0) =~= Seq::empty());
    while i < m.fields.len()
        invariant
            i <= m.fields@.len(),
            all == texts(m.fields@),
            first_missing(metadata@, all.take(i as int)) is None,
        decreases m.fields.len() - i,
    {
        proof {
            assert(all.take(i + 1).drop_last() =~= all.take(i as int));
            assert(all.take(i + 1).last() == m.fields@[i as int]@);
        }
        if member(metadata, m.fields[i].as_str()).is_none() {
            proof {
                lemma_missing_prefix(metadata@, all, i + 1);
            }
            return Err(m.fields[i].clone());
        }
        i += 1;
    }
    assert(all.take(i as int) =~= all);
    let fields: Vec<String> = in_order(&m.fields);
    let ghost fs = ordered(all);
    proof {
        lemma_ordered(all);
        lemma_none_missing(metadata@, all);
    }
    let mut pairs: Vec<(String, String)> = Vec::new();
    let mut k: usize = 0;
    while k < fields.len()
        invariant
            k <= fields@.len(),
            texts(fields@) == fs,
            has_fields(metadata@, all),
            forall|y: Seq<char>| #[trigger] fs.contains(y) <==> all.contains(y),
            text_pairs(pairs@) =~= extracted(metadata@, fs.take(k as int)),
        decreases fields.len() - k,
    {
        let f: &String = &fields[k];
        proof {
            assert(fs[k as int] == f@);
            assert(fs.contains(f@));
            let w = choose|w: int| 0 <= w < all.len() && all[w] == f@;
            assert(json_member(metadata@, all[w]) is Some);
        }
        let ghost held = pairs@;
        if let Some(v) = member(metadata, f.as_str()) {
            pairs.push((f.clone(), v));
            proof {
                let now = extracted(metadata@, fs.take(k + 1));
                assert(text_pairs(pairs@) =~= text_pairs(held).push((f@, v@)));
                assert forall|i: int| 0 <= i < now.len() implies #[trigger] now[i] == text_pairs(
                    pairs@,
                )[i] by {
                    if i < k {
                        assert(text_pairs(held)[i] == extracted(metadata@, fs.take(k as int))[i]);
                    }
                }
            }
        }
        k += 1;
    }
    assert(fs.take(k as int) =~= fs);
    Ok(pairs)
}

/// What is missing first is missing first of more fields.
proof fn lemma_missing_prefix(metadata: Seq<char>, fields: Seq<Seq<char>>, n: int)
    requires
        0 <= n <= fields.len(),
        first_missing(metadata, fields.take(n)) is Some,
    ensures
        first_missing(metadata, fields) == first_missing(metadata, fields.take(n)),
    decreases fields.len(),
{
    if n < fields.len() {
        let init = fields.drop_last();
        assert(init.take(n) =~= fields.take(n));
        lemma_missing_prefix(metadata, init, n);
    } else {
        assert(fields.take(n) =~= fields);
    }
}

// ---------------------------------------------------------------------------
// Slot keys
// ---------------------------------------------------------------------------

/// A part of a key: its length, a colon, and the text.
pub open spec fn part(s: Seq<char>) -> Seq<char> {
    decimal(s.len()) + seq![':'] + s
}

/// The parts of fields and their values.
pub open spec fn field_parts(metadata: Seq<char>, fields: Seq<Seq<char>>) -> Seq<char>
    decreases fields.len(),
{
    if fields.len() == 0 {
        Seq::empty()
    } else {
        field_parts(metadata, fields.drop_last()) + part(fields.last()) + part(
            json_member(metadata, fields.last())->0,
        )
    }
}

/// What tells a slot apart: kind, status, and the values of the fields, in order.
pub open spec fn slot_text(m: MatcherView, metadata: Seq<char>) -> Seq<char> {
    part(m.kind) + part(m.status.stored_name()) + field_parts(metadata, ordered(m.fields))
}

/// The prefix of the keys of a rule.
pub open spec fn key_prefix(capacity: bool) -> Seq<char> {
    if capacity {
        "cap:"@
    } else {
        "conc:"@
    }
}

/// The key of the slot that a rule means, where the metadata has the fields that it
/// needs.
pub open spec fn slot_key(capacity: bool, m: MatcherView, metadata: Seq<char>) -> Option<
    Seq<char>,
> {
    if has_fields(metadata, m.fields) {
        Some(key_prefix(capacity) + slot_text(m, metadata))
    } else {
        None
    }
}

fn push_part(text: &mut String, s: &str)
    ensures
        final(text)@ == old(text)@ + part(s@),
{
    let ghost start = text@;
    proof {
        reveal_strlit(":");
    }
    text.append(to_decimal(s.unicode_len()).as_str());
    text.append(":");
    text.append(s);
    assert(":"@ =~= seq![':']);
    assert(text@ =~= start + part(s@));
}

/// The text that tells a slot apart, from the values that the rule compares.
pub(crate) fn text_of(m: &Matcher, pairs: &Vec<(String, String)>, metadata: Ghost<Seq<char>>) -> (r: String)
    requires
        text_pairs(pairs@) == extracted(metadata@, ordered(m@.fields)),
    ensures
        r@ == slot_text(m@, metadata@),
{
    let ghost fs = ordered(m@.fields);
    let ghost meta = metadata@;
    let mut text: String = String::new();
    push_part(&mut text, m.kind.as_str());
    push_part(&mut text, m.status.stored());
    let ghost head = part(m@.kind) + part(m@.status.stored_name());
    let mut i: usize = 0;
    proof {
        assert(fs.take(0) =~= Seq::empty());
        assert(text@ =~= head + field_parts(meta, fs.take(0)));
        assert(text_pairs(pairs@).len() == pairs@.len());
    }
    while i < pairs.len()
        invariant
            i <= pairs@.len(),
            pairs@.len() == fs.len(),
            text_pairs(pairs@) == extracted(meta, fs),
            text@ == head + field_parts(meta, fs.take(i as int)),
        decreases pairs.len() - i,
    {
        proof {
            assert(text_pairs(pairs@)[i as int] == (pairs@[i as int].0@, pairs@[i as int].1@));
            assert(extracted(meta, fs)[i as int] == (
                fs[i as int],
                json_member(meta, fs[i as int])->0,
            ));
        }
        push_part(&mut text, pairs[i].0.as_str());
        push_part(&mut text, pairs[i].1.as_str());
        proof {
            assert(fs.take(i + 1).drop_last() =~= fs.take(i as int));
            assert(fs.take(i + 1).last() == fs[i as int]);
            assert(text@ =~= head + field_parts(meta, fs.take(i + 1)));
        }
        i += 1;
    }
    assert(fs.take(i as int) =~= fs);
    text
}

/// The key of a slot, or the first field that the metadata lacks.
fn key_of(capacity: bool, m: &Matcher, metadata: &str) -> (r: Result<String, String>)
    ensures
        match r {
            Ok(k) => slot_key(capacity, m@, metadata@) == Some(k@),
            Err(f) => {
                &&& slot_key(capacity, m@, metadata@) is None
                &&& first_missing(metadata@, m@.fields) == Some(f@)
            },
        },
{
    proof {
        lemma_none_missing(metadata@, m@.fields);
    }
    match extract_metadata_fields(m, metadata) {
        Err(f) => Err(f),
        Ok(pairs) => {
            let mut key: String = if capacity {
                "cap:".to_string()
            } else {
                "conc:".to_string()
            };
            let text: String = text_of(m, &pairs, Ghost(metadata@));
            key.append(text.as_str());
            Ok(key)
        },
    }
}

/// The key of the slot of a concurrency rule, or the first field that the metadata
/// lacks.
pub fn concurrency_slot_key(m: &Matcher, metadata: &str) -> (r: Result<String, String>)
    ensures
        match r {
            Ok(k) => slot_key(false, m@, metadata@) == Some(k@),
            Err(f) => {
                &&& slot_key(false, m@, metadata@) is None
                &&& first_missing(metadata@, m@.fields) == Some(f@)
            },
        },
{
    key_of(false, m, metadata)
}

/// The key of the slot of a capacity rule, or the first field that the metadata lacks.
pub fn capacity_slot_key(m: &Matcher, metadata: &str) -> (r: Result<String, String>)
    ensures
        match r {
            Ok(k) => slot_key(true, m@, metadata@) == Some(k@),
            Err(f) => {
                &&& slot_key(true, m@, metadata@) is None
                &&& first_missing(metadata@, m@.fields) == Some(f@)
            },
        },
{
    key_of(true, m, metadata)
}

// ---------------------------------------------------------------------------
// The rules of a task
// ---------------------------------------------------------------------------

/// A rule with the key of its slot, viewed mathematically. The key is `None` where a
/// metadata field is missing.
pub enum KeyedView {
    /// See [`Strategy::Concurency`].
    Concurency { limit: int, key: Option<Seq<char>> },
    /// See [`Strategy::Capacity`].
    Capacity { limit: int, key: Option<Seq<char>> },
}

/// A rule with the key of its slot.
#[derive(Debug)]
pub struct KeyedRule {
    /// Whether it is a capacity rule.
    pub capacity: bool,
    /// The slot's limit.
    pub limit: i32,
    /// The key, where the metadata has the fields that the rule needs.
    pub key: Option<String>,
}

impl View for KeyedRule {
    type V = KeyedView;

    open spec fn view(&self) -> KeyedView {
        if self.capacity {
            KeyedView::Capacity { limit: self.limit as int, key: opt_text(self.key) }
        } else {
            KeyedView::Concurency { limit: self.limit as int, key: opt_text(self.key) }
        }
    }
}

/// A rule with the key that metadata give it.
pub open spec fn keyed_rule(s: StrategyView, metadata: Seq<char>) -> KeyedView {
    match s {
        StrategyView::Concurency { limit, matcher } => KeyedView::Concurency {
            limit,
            key: slot_key(false, matcher, metadata),
        },
        StrategyView::Capacity { limit, matcher } => KeyedView::Capacity {
            limit,
            key: slot_key(true, matcher, metadata),
        },
    }
}

/// The rules of a task, with the keys that its metadata give them.
#[verifier::opaque]
pub open spec fn keyed(t: TaskRow) -> Seq<KeyedView> {
    Seq::new(t.rules.len(), |i: int| keyed_rule(t.rules[i], t.metadata))
}

/// A task has as many keyed rules as rules.
pub proof fn lemma_keyed_len(t: TaskRow)
    ensures
        keyed(t).len() == t.rules.len(),
{
    reveal(keyed);
}

/// The views of keyed rules.
pub open spec fn keyed_views(v: Seq<KeyedRule>) -> Seq<KeyedView> {
    v.map_values(|k: KeyedRule| k@)
}

/// The rules of a task, with the keys that its metadata give them.
pub fn keyed_rules(t: &Task) -> (r: Vec<KeyedRule>)
    ensures
        keyed_views(r@) == keyed(t@),
{
    reveal(keyed);
    let rules: &Vec<Strategy> = &t.start_condition.0;
    let mut r: Vec<KeyedRule> = Vec::new();
    let mut i: usize = 0;
    while i < rules.len()
        invariant
            i <= rules.len(),
            *rules == t.start_condition.0,
            r@.len() == i,
            forall|k: int| 0 <= k < i ==> (#[trigger] r@[k])@ == keyed(t@)[k],
        decreases rules.len() - i,
    {
        reveal(keyed);
        assert(t@.rules[i as int] == rules@[i as int]@);
        let (capacity, limit, key): (bool, i32, Result<String, String>) = match &rules[i] {
            Strategy::Concurency { max_concurency, matcher } => (
                false,
                *max_concurency,
                concurrency_slot_key(matcher, t.metadata.as_str()),
            ),
            Strategy::Capacity { max_capacity, matcher } => (
                true,
                *max_capacity,
                capacity_slot_key(matcher, t.metadata.as_str()),
            ),
        };
        let key: Option<String> = match key {
            Ok(k) => Some(k),
            Err(_) => None,
        };
        r.push(KeyedRule { capacity, limit, key });
        i += 1;
    }
    assert(keyed_views(r@) =~= keyed(t@));
    r
}

// ---------------------------------------------------------------------------
// Laws
// ---------------------------------------------------------------------------

/// Which slot a rule means does not depend on how often and in which order its matcher
/// names the fields.
pub proof fn field_order_does_not_matter(
    capacity: bool,
    a: MatcherView,
    b: MatcherView,
    metadata: Seq<char>,
)
    requires
        a.kind == b.kind,
        a.status == b.status,
        forall|f: Seq<char>| #[trigger] a.fields.contains(f) <==> b.fields.contains(f),
    ensures
        slot_key(capacity, a, metadata) == slot_key(capacity, b, metadata),
{
    lemma_ordered(a.fields);
    lemma_ordered(b.fields);
    assert forall|y: Seq<char>| #[trigger] ordered(a.fields).contains(y) <==> ordered(
        b.fields,
    ).contains(y) by {
        assert(a.fields.contains(y) <==> b.fields.contains(y));
    }
    lemma_same_order(ordered(a.fields), ordered(b.fields));
    if has_fields(metadata, a.fields) {
        lemma_fields_by_name(metadata, a.fields, b.fields);
    }
    if has_fields(metadata, b.fields) {
        lemma_fields_by_name(metadata, b.fields, a.fields);
    }
}

proof fn lemma_fields_by_name(metadata: Seq<char>, a: Seq<Seq<char>>, b: Seq<Seq<char>>)
    requires
        forall|f: Seq<char>| #[trigger] a.contains(f) <==> b.contains(f),
        has_fields(metadata, a),
    ensures
        has_fields(metadata, b),
{
    assert forall|i: int| 0 <= i < b.len() implies json_member(metadata, #[trigger] b[i]) is Some by {
        assert(b.contains(b[i]));
        assert(a.contains(b[i]));
        let j = choose|j: int| 0 <= j < a.len() && a[j] == b[i];
        assert(json_member(metadata, a[j]) is Some);
    }
}

/// A part can be told from what follows it.
proof fn lemma_part(a: Seq<char>, x: Seq<char>, b: Seq<char>, y: Seq<char>)
    requires
        part(a) + x == part(b) + y,
    ensures
        a == b,
        x == y,
{
    let l = part(a) + x;
    let r = part(b) + y;
    let da = decimal(a.len());
    let db = decimal(b.len());
    lemma_decimal(a.len(), b.len());
    lemma_decimal(b.len(), a.len());
    assert(da.len() == db.len()) by {
        assert(l[da.len() as int] == ':');
        assert(r[db.len() as int] == ':');
        if da.len() < db.len() {
            assert(r[da.len() as int] == db[da.len() as int]);
            assert(db.contains(db[da.len() as int]));
        } else if db.len() < da.len() {
            assert(l[db.len() as int] == da[db.len() as int]);
            assert(da.contains(da[db.len() as int]));
        }
    }
    let n = da.len() as int;
    assert(da =~= l.take(n));
    assert(db =~= r.take(n));
    assert(a =~= l.subrange(n + 1, n + 1 + a.len()));
    assert(b =~= r.subrange(n + 1, n + 1 + b.len()));
    assert(x =~= l.skip(n + 1 + a.len()));
    assert(y =~= r.skip(n + 1 + b.len()));
}

/// Fields with their values, from the first one on.
spec fn parts_from(metadata: Seq<char>, fields: Seq<Seq<char>>) -> Seq<char>
    decreases fields.len(),
{
    if fields.len() == 0 {
        Seq::empty()
    } else {
        part(fields[0]) + (part(json_member(metadata, fields[0])->0) + parts_from(
            metadata,
            fields.skip(1),
        ))
    }
}

proof fn lemma_regroup(a: Seq<char>, b: Seq<char>, c: Seq<char>, d: Seq<char>, e: Seq<char>)
    ensures
        (a + (b + c)) + d + e == a + (b + (c + d + e)),
{
    assert((a + (b + c)) + d + e =~= a + (b + (c + d + e)));
}

proof fn lemma_parts_from(metadata: Seq<char>, fields: Seq<Seq<char>>)
    ensures
        field_parts(metadata, fields) == parts_from(metadata, fields),
    decreases fields.len(),
{
    if fields.len() > 0 {
        let init = fields.drop_last();
        lemma_parts_from(metadata, init);
        lemma_parts_from(metadata, fields.skip(1));
        if fields.len() == 1 {
            assert(init =~= Seq::empty());
            assert(fields.skip(1) =~= Seq::empty());
            assert(field_parts(metadata, fields) =~= parts_from(metadata, fields));
        } else {
            assert(init.skip(1) =~= fields.skip(1).drop_last());
            assert(init[0] == fields[0]);
            assert(fields.skip(1).last() == fields.last());
            lemma_parts_from(metadata, init.skip(1));
            lemma_regroup(
                part(fields[0]),
                part(json_member(metadata, fields[0])->0),
                field_parts(metadata, init.skip(1)),
                part(fields.last()),
                part(json_member(metadata, fields.last())->0),
            );
        }
    }
}

/// Fields and values are told by their parts.
proof fn lemma_field_parts(
    ma: Seq<char>,
    a: Seq<Seq<char>>,
    mb: Seq<char>,
    b: Seq<Seq<char>>,
)
    requires
        has_fields(ma, a),
        has_fields(mb, b),
        parts_from(ma, a) == parts_from(mb, b),
    ensures
        a == b,
        forall|i: int|
            0 <= i < a.len() ==> json_member(ma, #[trigger] a[i]) == json_member(mb, a[i]),
    decreases a.len() + b.len(),
{
    if a.len() == 0 || b.len() == 0 {
        if a.len() > 0 {
            assert(part(a[0]).len() > 0);
        }
        if b.len() > 0 {
            assert(part(b[0]).len() > 0);
        }
        assert(a =~= b);
    } else {
        let va = json_member(ma, a[0])->0;
        let vb = json_member(mb, b[0])->0;
        lemma_part(
            a[0],
            part(va) + parts_from(ma, a.skip(1)),
            b[0],
            part(vb) + parts_from(mb, b.skip(1)),
        );
        lemma_part(va, parts_from(ma, a.skip(1)), vb, parts_from(mb, b.skip(1)));
        assert(has_fields(ma, a.skip(1))) by {
            assert forall|i: int| 0 <= i < a.skip(1).len() implies json_member(
                ma,
                #[trigger] a.skip(1)[i],
            ) is Some by {
                assert(json_member(ma, a[i + 1]) is Some);
            }
        }
        assert(has_fields(mb, b.skip(1))) by {
            assert forall|i: int| 0 <= i < b.skip(1).len() implies json_member(
                mb,
                #[trigger] b.skip(1)[i],
            ) is Some by {
                assert(json_member(mb, b[i + 1]) is Some);
            }
        }
        lemma_field_parts(ma, a.skip(1), mb, b.skip(1));
        assert(json_member(ma, a[0]) is Some && json_member(mb, b[0]) is Some);
        assert(a =~= seq![a[0]] + a.skip(1));
        assert(b =~= seq![b[0]] + b.skip(1));
        assert forall|i: int| 0 <= i < a.len() implies json_member(ma, #[trigger] a[i])
            == json_member(mb, a[i]) by {
            if i > 0 {
                assert(a[i] == a.skip(1)[i - 1]);
            }
        }
    }
}

/// Keys do not collide: two rules mean the same slot only where they are of one sort,
/// have the same kind, status and fields, and the metadata agree on those fields.
pub proof fn slot_keys_do_not_collide(
    ca: bool,
    a: MatcherView,
    ma: Seq<char>,
    cb: bool,
    b: MatcherView,
    mb: Seq<char>,
)
    requires
        slot_key(ca, a, ma) is Some,
        slot_key(ca, a, ma) == slot_key(cb, b, mb),
    ensures
        ca == cb,
        a.kind == b.kind,
        a.status == b.status,
        forall|f: Seq<char>| #[trigger] a.fields.contains(f) <==> b.fields.contains(f),
        forall|f: Seq<char>| #[trigger]
            a.fields.contains(f) ==> json_member(ma, f) == json_member(mb, f),
{
    reveal_strlit("cap:");
    reveal_strlit("conc:");
    let ka = slot_key(ca, a, ma)->0;
    let kb = slot_key(cb, b, mb)->0;
    assert(ka[1] == key_prefix(ca)[1]);
    assert(kb[1] == key_prefix(cb)[1]);
    let n = key_prefix(ca).len() as int;
    assert(slot_text(a, ma) =~= ka.skip(n));
    assert(slot_text(b, mb) =~= kb.skip(n));
    let fa = ordered(a.fields);
    let fb = ordered(b.fields);
    lemma_ordered(a.fields);
    lemma_ordered(b.fields);
    lemma_parts_from(ma, fa);
    lemma_parts_from(mb, fb);
    let sa = part(a.status.stored_name());
    let sb = part(b.status.stored_name());
    assert(slot_text(a, ma) =~= part(a.kind) + (sa + parts_from(ma, fa)));
    assert(slot_text(b, mb) =~= part(b.kind) + (sb + parts_from(mb, fb)));
    lemma_part(a.kind, sa + parts_from(ma, fa), b.kind, sb + parts_from(mb, fb));
    lemma_part(
        a.status.stored_name(),
        parts_from(ma, fa),
        b.status.stored_name(),
        parts_from(mb, fb),
    );
    crate::models::lemma_stored_names(a.status, b.status);
    lemma_fields_by_name(ma, a.fields, fa);
    lemma_fields_by_name(mb, b.fields, fb);
    lemma_field_parts(ma, fa, mb, fb);
    assert forall|f: Seq<char>| #[trigger] a.fields.contains(f) <==> b.fields.contains(f) by {
        assert(fa.contains(f) <==> a.fields.contains(f));
        assert(fb.contains(f) <==> b.fields.contains(f));
    }
    assert forall|f: Seq<char>| #[trigger] a.fields.contains(f) implies json_member(ma, f)
        == json_member(mb, f) by {
        assert(fa.contains(f));
        let i = choose|i: int| 0 <= i < fa.len() && fa[i] == f;
        assert(json_member(ma, fa[i]) == json_member(mb, fa[i]));
    }
}

/// Capacity rules have keys that begin with `cap:`, and concurrency rules have none of
/// these.
pub proof fn lemma_key_prefixes(capacity: bool, m: MatcherView, metadata: Seq<char>)
    requires
        slot_key(capacity, m, metadata) is Some,
    ensures
        begins_with(slot_key(capacity, m, metadata)->0, "cap:"@) == capacity,
{
    reveal_strlit("cap:");
    reveal_strlit("conc:");
    let k = slot_key(capacity, m, metadata)->0;
    assert(k[1] == key_prefix(capacity)[1]);
    if capacity {
        assert(k.take(4) =~= "cap:"@);
    } else {
        if begins_with(k, "cap:"@) {
            assert(k.take(4)[1] == k[1]);
        }
    }
}

proof fn lemma_same_parts(ma: Seq<char>, mb: Seq<char>, fields: Seq<Seq<char>>)
    requires
        forall|f: Seq<char>| #[trigger]
            fields.contains(f) ==> json_member(ma, f) == json_member(mb, f),
    ensures
        field_parts(ma, fields) == field_parts(mb, fields),
    decreases fields.len(),
{
    if fields.len() > 0 {
        let init = fields.drop_last();
        assert forall|f: Seq<char>| #[trigger] init.contains(f) implies json_member(ma, f)
            == json_member(mb, f) by {
            let i = choose|i: int| 0 <= i < init.len() && init[i] == f;
            assert(fields[i] == f);
            assert(fields.contains(f));
        }
        lemma_same_parts(ma, mb, init);
        assert(fields[fields.len() - 1] == fields.last());
        assert(fields.contains(fields.last()));
    }
}

/// Two dedupe checks take the same lock if and only if they compare the same: the same
/// kind, status and fields, with the same values.
pub proof fn equal_comparisons_share_a_lock(
    a: MatcherView,
    ma: Seq<char>,
    b: MatcherView,
    mb: Seq<char>,
)
    requires
        has_fields(ma, a.fields),
        has_fields(mb, b.fields),
    ensures
        slot_text(a, ma) == slot_text(b, mb) <==> {
            &&& a.kind == b.kind
            &&& a.status == b.status
            &&& forall|f: Seq<char>| #[trigger] a.fields.contains(f) <==> b.fields.contains(f)
            &&& forall|f: Seq<char>| #[trigger]
                a.fields.contains(f) ==> json_member(ma, f) == json_member(mb, f)
        },
{
    if slot_text(a, ma) == slot_text(b, mb) {
        slot_keys_do_not_collide(true, a, ma, true, b, mb);
    }
    if a.kind == b.kind && a.status == b.status && (forall|f: Seq<char>| #[trigger]
        a.fields.contains(f) <==> b.fields.contains(f)) && (forall|f: Seq<char>| #[trigger]
        a.fields.contains(f) ==> json_member(ma, f) == json_member(mb, f)) {
        lemma_ordered(a.fields);
        lemma_ordered(b.fields);
        assert forall|y: Seq<char>| #[trigger] ordered(a.fields).contains(y) <==> ordered(
            b.fields,
        ).contains(y) by {
            assert(a.fields.contains(y) <==> b.fields.contains(y));
        }
        lemma_same_order(ordered(a.fields), ordered(b.fields));
        assert forall|f: Seq<char>| #[trigger] ordered(a.fields).contains(f) implies json_member(
            ma,
            f,
        ) == json_member(mb, f) by {
            assert(a.fields.contains(f));
        }
        lemma_same_parts(ma, mb, ordered(a.fields));
    }
}

} // verus!
