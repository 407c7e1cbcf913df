//! The ids of the metrics in their registry differ.

use crate::metrics::{desc_id, fnv, metric_descs, Descriptor};
use vstd::prelude::*;
use vstd::utf8::{encode_utf8, is_ascii_chars, is_ascii_chars_encode_utf8};

verus! {

/// The low byte of an FNV-1a hash after one more byte: it depends on the low byte
/// before alone.
#[verifier::opaque]
spec fn low_step(h: u8, b: u8) -> u8 {
    ((h ^ b) * 179) as u8
}

/// The same, after eight more bytes.
spec fn low_steps(h: u8, a: u8, b: u8, c: u8, d: u8, e: u8, f: u8, g: u8, i: u8) -> u8 {
    low_step(
        low_step(
            low_step(
                low_step(low_step(low_step(low_step(low_step(h, a), b), c), d), e),
                f,
            ),
            g,
        ),
        i,
    )
}

/// The low byte of the hash of a name and the separator, from position `i` on.
spec fn low_hash(h: u8, name: Seq<char>, i: int) -> u8
    decreases name.len() - i,
{
    if i >= name.len() {
        low_step(h, 255)
    } else {
        low_hash(low_step(h, name[i] as u8), name, i + 1)
    }
}

proof fn lemma_low_step(h: u64, b: u8)
    ensures
        ((h ^ (b as u64)).wrapping_mul(0x100000001b3u64)) as u8 == low_step(h as u8, b),
{
    reveal(low_step);
    let x = h ^ (b as u64);
    assert((x * 0x100000001b3u64) % 0x1_0000_0000_0000_0000 == (x * 0x100000001b3u64) as u64 && ((
    x * 0x100000001b3u64) as u64) as u8 == (((h as u8) ^ b) * 179) as u8) by (bit_vector)
        requires
            x == h ^ (b as u64),
    ;
}

/// The low byte of a hash is the hash of the low bytes.
proof fn lemma_low_hash(h: u64, name: Seq<char>, i: int)
    requires
        is_ascii_chars(name),
        0 <= i <= name.len(),
    ensures
        fnv(h, encode_utf8(name).push(0xffu8).skip(i)) as u8 == low_hash(h as u8, name, i),
    decreases name.len() - i,
{
    let bytes = encode_utf8(name).push(0xffu8);
    let rest = bytes.skip(i);
    is_ascii_chars_encode_utf8(name);
    assert(rest.drop_first() =~= bytes.skip(i + 1));
    lemma_low_step(h, rest[0]);
    let next = (h ^ (rest[0] as u64)).wrapping_mul(0x100000001b3u64);
    if i == name.len() {
        assert(rest.drop_first().len() == 0);
        assert(fnv(next, rest.drop_first()) == next);
    } else {
        assert(rest[0] == name[i] as u8);
        lemma_low_hash(next, name, i + 1);
    }
}

/// The low byte of a descriptor's id.
proof fn lemma_low_id(d: Descriptor)
    requires
        is_ascii_chars(d.name),
    ensures
        desc_id(d) as u8 == low_hash(37, d.name, 0),
{
    reveal(desc_id);
    let bytes = encode_utf8(d.name).push(0xffu8);
    assert(bytes.skip(0) =~= bytes);
    assert(0xcbf29ce484222325u64 as u8 == 37) by (bit_vector);
    lemma_low_hash(0xcbf29ce484222325u64, d.name, 0);
}

/// Which metric has an id with this low byte.
spec fn position(low: u8) -> int {
    if low == 64 {
        0
    } else if low == 209 {
        1
    } else if low == 228 {
        2
    } else if low == 176 {
        3
    } else if low == 139 {
        4
    } else if low == 19 {
        5
    } else if low == 124 {
        6
    } else if low == 104 {
        7
    } else if low == 117 {
        8
    } else if low == 198 {
        9
    } else if low == 203 {
        10
    } else if low == 252 {
        11
    } else if low == 137 {
        12
    } else if low == 91 {
        13
    } else if low == 125 {
        14
    } else if low == 17 {
        15
    } else if low == 54 {
        16
    } else if low == 75 {
        17
    } else if low == 50 {
        18
    } else if low == 227 {
        19
    } else if low == 248 {
        20
    } else if low == 22 {
        21
    } else if low == 177 {
        22
    } else if low == 95 {
        23
    } else if low == 140 {
        24
    } else if low == 23 {
        25
    } else if low == 79 {
        26
    } else if low == 94 {
        27
    } else if low == 163 {
        28
    } else if low == 107 {
        29
    } else if low == 92 {
        30
    } else if low == 121 {
        31
    } else if low == 185 {
        32
    } else if low == 65 {
        33
    } else if low == 167 {
        34
    } else if low == 59 {
        35
    } else if low == 67 {
        36
    } else if low == 11 {
        37
    } else if low == 217 {
        38
    } else if low == 251 {
        39
    } else {
        -1
    }
}

/// The low bytes of the ids of the metrics 0 to 4 are the ones listed for them.
proof fn lemma_positions_0()
    ensures
        forall|i: int|
            0 <= i < 5 ==> position(desc_id(#[trigger] metric_descs()[i]) as u8) == i,
{
    assert(position(desc_id(metric_descs()[0]) as u8) == 0) by {
        reveal_strlit("tasks_created_total");
        lemma_low_id(metric_descs()[0]);
        reveal_with_fuel(low_hash, 20);
        assert({
            let a: u8 = low_steps(37u8, 116, 97, 115, 107, 115, 95, 99, 114);
            let b: u8 = low_steps(a, 101, 97, 116, 101, 100, 95, 116, 111);
            low_step(low_step(low_step(low_step(b, 116), 97), 108), 255) == 64
        }) by (bit_vector);
    }
    assert(position(desc_id(metric_descs()[1]) as u8) == 1) by {
        reveal_strlit("tasks_cancelled_total");
        lemma_low_id(metric_descs()[1]);
        reveal_with_fuel(low_hash, 22);
        assert({
            let a: u8 = low_steps(37u8, 116, 97, 115, 107, 115, 95, 99, 97);
            let b: u8 = low_steps(a, 110, 99, 101, 108, 108, 101, 100, 95);
            let c: u8 = low_step(low_step(low_step(low_step(b, 116), 111), 116), 97);
            low_step(low_step(c, 108), 255) == 209
        }) by (bit_vector);
    }
    assert(position(desc_id(metric_descs()[2]) as u8) == 2) by {
        reveal_strlit("tasks_timed_out_total");
        lemma_low_id(metric_descs()[2]);
        reveal_with_fuel(low_hash, 22);
        assert({
            let a: u8 = low_steps(37u8, 116, 97, 115, 107, 115, 95, 116, 105);
            let b: u8 = low_steps(a, 109, 101, 100, 95, 111, 117, 116, 95);
            let c: u8 = low_step(low_step(low_step(low_step(b, 116), 111), 116), 97);
            low_step(low_step(c, 108), 255) == 228
        }) by (bit_vector);
    }
    assert(position(desc_id(metric_descs()[3]) as u8) == 3) by {
        reveal_strlit("tasks_with_dependencies_total");
        lemma_low_id(metric_descs()[3]);
        reveal_with_fuel(low_hash, 30);
        assert({
            let a: u8 = low_steps(37u8, 116, 97, 115, 107, 115, 95, 119, 105);
            let b: u8 = low_steps(a, 116, 104, 95, 100, 101, 112, 101, 110);
            let c: u8 = low_steps(b, 100, 101, 110, 99, 105, 101, 115, 95);
            let d: u8 = low_step(low_step(low_step(low_step(c, 116), 111), 116), 97);
            low_step(low_step(d, 108), 255) == 176
        }) by (bit_vector);
    }
    assert(position(desc_id(metric_descs()[4]) as u8) == 4) by {
        reveal_strlit("tasks_unblocked_total");
        lemma_low_id(metric_descs()[4]);
        reveal_with_fuel(low_hash, 22);
        assert({
            let a: u8 = low_steps(37u8, 116, 97, 115, 107, 115, 95, 117, 110);
            let b: u8 = low_steps(a, 98, 108, 111, 99, 107, 101, 100, 95);
            let c: u8 = low_step(low_step(low_step(low_step(b, 116), 111), 116), 97);
            low_step(low_step(c, 108), 255) == 139
        }) by (bit_vector);
    }
}

/// The low bytes of the ids of the metrics 5 to 9 are the ones listed for them.
proof fn lemma_positions_5()
    ensures
        forall|i: int|
            5 <= i < 10 ==> position(desc_id(#[trigger] metric_descs()[i]) as u8) == i,
{
    assert(position(desc_id(metric_descs()[5]) as u8) == 5) by {
        reveal_strlit("tasks_failed_by_dependency_total");
        lemma_low_id(metric_descs()[5]);
        reveal_with_fuel(low_hash, 33);
        assert({
            let a: u8 = low_steps(37u8, 116, 97, 115, 107, 115, 95, 102, 97);
            let b: u8 = low_steps(a, 105, 108, 101, 100, 95, 98, 121, 95);
            let c: u8 = low_steps(b, 100, 101, 112, 101, 110, 100, 101, 110);
            let d: u8 = low_steps(c, 99, 121, 95, 116, 111, 116, 97, 108);
            low_step(d, 255) == 19
        }) by (bit_vector);
    }
    assert(position(desc_id(metric_descs()[6]) as u8) == 6) by {
        reveal_strlit("tasks_canceled_dead_end_total");
        lemma_low_id(metric_descs()[6]);
        reveal_with_fuel(low_hash, 30);
        assert({
            let a: u8 = low_steps(37u8, 116, 97, 115, 107, 115, 95, 99, 97);
            let b: u8 = low_steps(a, 110, 99, 101, 108, 101, 100, 95, 100);
            let c: u8 = low_steps(b, 101, 97, 100, 95, 101, 110, 100, 95);
            let d: u8 = low_step(low_step(low_step(low_step(c, 116), 111), 116), 97);
            low_step(low_step(d, 108), 255) == 124
        }) by (bit_vector);
    }
    assert(position(desc_id(metric_descs()[7]) as u8) == 7) by {
        reveal_strlit("tasks_db_save_failures_total");
        lemma_low_id(metric_descs()[7]);
        reveal_with_fuel(low_hash, 29);
        assert({
            let a: u8 = low_steps(37u8, 116, 97, 115, 107, 115, 95, 100, 98);
            let b: u8 = low_steps(a, 95, 115, 97, 118, 101, 95, 102, 97);
            let c: u8 = low_steps(b, 105, 108, 117, 114, 101, 115, 95, 116);
            let d: u8 = low_step(low_step(low_step(low_step(c, 111), 116), 97), 108);
            low_step(d, 255) == 104
        }) by (bit_vector);
    }
    assert(position(desc_id(metric_descs()[8]) as u8) == 8) by {
        reveal_strlit("batch_update_failures_total");
        lemma_low_id(metric_descs()[8]);
        reveal_with_fuel(low_hash, 28);
        assert({
            let a: u8 = low_steps(37u8, 98, 97, 116, 99, 104, 95, 117, 112);
            let b: u8 = low_steps(a, 100, 97, 116, 101, 95, 102, 97, 105);
            let c: u8 = low_steps(b, 108, 117, 114, 101, 115, 95, 116, 111);
            low_step(low_step(low_step(low_step(c, 116), 97), 108), 255) == 117
        }) by (bit_vector);
    }
    assert(position(desc_id(metric_descs()[9]) as u8) == 9) by {
        reveal_strlit("webhook_idempotent_conflicts_total");
        lemma_low_id(metric_descs()[9]);
        reveal_with_fuel(low_hash, 35);
        assert({
            let a: u8 = low_steps(37u8, 119, 101, 98, 104, 111, 111, 107, 95);
            let b: u8 = low_steps(a, 105, 100, 101, 109, 112, 111, 116, 101);
            let c: u8 = low_steps(b, 110, 116, 95, 99, 111, 110, 102, 108);
            let d: u8 = low_steps(c, 105, 99, 116, 115, 95, 116, 111, 116);
            low_step(low_step(low_step(d, 97), 108), 255) == 198
        }) by (bit_vector);
    }
}

/// The low bytes of the ids of the metrics 10 to 14 are the ones listed for them.
proof fn lemma_positions_10()
    ensures
        forall|i: int|
            10 <= i < 15 ==> position(desc_id(#[trigger] metric_descs()[i]) as u8) == i,
{
    assert(position(desc_id(metric_descs()[10]) as u8) == 10) by {
        reveal_strlit("batch_update_events_total");
        lemma_low_id(metric_descs()[10]);
        reveal_with_fuel(low_hash, 26);
        assert({
            let a: u8 = low_steps(37u8, 98, 97, 116, 99, 104, 95, 117, 112);
            let b: u8 = low_steps(a, 100, 97, 116, 101, 95, 101, 118, 101);
            let c: u8 = low_steps(b, 110, 116, 115, 95, 116, 111, 116, 97);
            low_step(low_step(c, 108), 255) == 203
        }) by (bit_vector);
    }
    assert(position(desc_id(metric_descs()[11]) as u8) == 11) by {
        reveal_strlit("tasks_blocked_by_concurrency_total");
        lemma_low_id(metric_descs()[11]);
        reveal_with_fuel(low_hash, 35);
        assert({
            let a: u8 = low_steps(37u8, 116, 97, 115, 107, 115, 95, 98, 108);
            let b: u8 = low_steps(a, 111, 99, 107, 101, 100, 95, 98, 121);
            let c: u8 = low_steps(b, 95, 99, 111, 110, 99, 117, 114, 114);
            let d: u8 = low_steps(c, 101, 110, 99, 121, 95, 116, 111, 116);
            low_step(low_step(low_step(d, 97), 108), 255) == 252
        }) by (bit_vector);
    }
    assert(position(desc_id(metric_descs()[12]) as u8) == 12) by {
        reveal_strlit("concurrency_ko_cache_hits_total");
        lemma_low_id(metric_descs()[12]);
        reveal_with_fuel(low_hash, 32);
        assert({
            let a: u8 = low_steps(37u8, 99, 111, 110, 99, 117, 114, 114, 101);
            let b: u8 = low_steps(a, 110, 99, 121, 95, 107, 111, 95, 99);
            let c: u8 = low_steps(b, 97, 99, 104, 101, 95, 104, 105, 116);
            let d: u8 = low_step(low_step(low_step(low_step(c, 115), 95), 116), 111);
            low_step(low_step(low_step(low_step(d, 116), 97), 108), 255) == 137
        }) by (bit_vector);
    }
    assert(position(desc_id(metric_descs()[13]) as u8) == 13) by {
        reveal_strlit("tasks_deduped_total");
        lemma_low_id(metric_descs()[13]);
        reveal_with_fuel(low_hash, 20);
        assert({
            let a: u8 = low_steps(37u8, 116, 97, 115, 107, 115, 95, 100, 101);
            let b: u8 = low_steps(a, 100, 117, 112, 101, 100, 95, 116, 111);
            low_step(low_step(low_step(low_step(b, 116), 97), 108), 255) == 91
        }) by (bit_vector);
    }
    assert(position(desc_id(metric_descs()[14]) as u8) == 14) by {
        reveal_strlit("batches_completed_total");
        lemma_low_id(metric_descs()[14]);
        reveal_with_fuel(low_hash, 24);
        assert({
            let a: u8 = low_steps(37u8, 98, 97, 116, 99, 104, 101, 115, 95);
            let b: u8 = low_steps(a, 99, 111, 109, 112, 108, 101, 116, 101);
            let c: u8 = low_step(low_step(low_step(low_step(b, 100), 95), 116), 111);
            low_step(low_step(low_step(low_step(c, 116), 97), 108), 255) == 125
        }) by (bit_vector);
    }
}

/// The low bytes of the ids of the metrics 15 to 19 are the ones listed for them.
proof fn lemma_positions_15()
    ensures
        forall|i: int|
            15 <= i < 20 ==> position(desc_id(#[trigger] metric_descs()[i]) as u8) == i,
{
    assert(position(desc_id(metric_descs()[15]) as u8) == 15) by {
        reveal_strlit("db_pool_acquire_failures_total");
        lemma_low_id(metric_descs()[15]);
        reveal_with_fuel(low_hash, 31);
        assert({
            let a: u8 = low_steps(37u8, 100, 98, 95, 112, 111, 111, 108, 95);
            let b: u8 = low_steps(a, 97, 99, 113, 117, 105, 114, 101, 95);
            let c: u8 = low_steps(b, 102, 97, 105, 108, 117, 114, 101, 115);
            let d: u8 = low_step(low_step(low_step(low_step(c, 95), 116), 111), 116);
            low_step(low_step(low_step(d, 97), 108), 255) == 17
        }) by (bit_vector);
    }
    assert(position(desc_id(metric_descs()[16]) as u8) == 16) by {
        reveal_strlit("circuit_breaker_rejections_total");
        lemma_low_id(metric_descs()[16]);
        reveal_with_fuel(low_hash, 33);
        assert({
            let a: u8 = low_steps(37u8, 99, 105, 114, 99, 117, 105, 116, 95);
            let b: u8 = low_steps(a, 98, 114, 101, 97, 107, 101, 114, 95);
            let c: u8 = low_steps(b, 114, 101, 106, 101, 99, 116, 105, 111);
            let d: u8 = low_steps(c, 110, 115, 95, 116, 111, 116, 97, 108);
            low_step(d, 255) == 54
        }) by (bit_vector);
    }
    assert(position(desc_id(metric_descs()[17]) as u8) == 17) by {
        reveal_strlit("retention_tasks_cleaned_total");
        lemma_low_id(metric_descs()[17]);
        reveal_with_fuel(low_hash, 30);
        assert({
            let a: u8 = low_steps(37u8, 114, 101, 116, 101, 110, 116, 105, 111);
            let b: u8 = low_steps(a, 110, 95, 116, 97, 115, 107, 115, 95);
            let c: u8 = low_steps(b, 99, 108, 101, 97, 110, 101, 100, 95);
            let d: u8 = low_step(low_step(low_step(low_step(c, 116), 111), 116), 97);
            low_step(low_step(d, 108), 255) == 75
        }) by (bit_vector);
    }
    assert(position(desc_id(metric_descs()[18]) as u8) == 18) by {
        reveal_strlit("task_status_transitions_total");
        lemma_low_id(metric_descs()[18]);
        reveal_with_fuel(low_hash, 30);
        assert({
            let a: u8 = low_steps(37u8, 116, 97, 115, 107, 95, 115, 116, 97);
            let b: u8 = low_steps(a, 116, 117, 115, 95, 116, 114, 97, 110);
            let c: u8 = low_steps(b, 115, 105, 116, 105, 111, 110, 115, 95);
            let d: u8 = low_step(low_step(low_step(low_step(c, 116), 111), 116), 97);
            low_step(low_step(d, 108), 255) == 50
        }) by (bit_vector);
    }
    assert(position(desc_id(metric_descs()[19]) as u8) == 19) by {
        reveal_strlit("tasks_completed_total");
        lemma_low_id(metric_descs()[19]);
        reveal_with_fuel(low_hash, 22);
        assert({
            let a: u8 = low_steps(37u8, 116, 97, 115, 107, 115, 95, 99, 111);
            let b: u8 = low_steps(a, 109, 112, 108, 101, 116, 101, 100, 95);
            let c: u8 = low_step(low_step(low_step(low_step(b, 116), 111), 116), 97);
            low_step(low_step(c, 108), 255) == 227
        }) by (bit_vector);
    }
}

/// The low bytes of the ids of the metrics 20 to 24 are the ones listed for them.
proof fn lemma_positions_20()
    ensures
        forall|i: int|
            20 <= i < 25 ==> position(desc_id(#[trigger] metric_descs()[i]) as u8) == i,
{
    assert(position(desc_id(metric_descs()[20]) as u8) == 20) by {
        reveal_strlit("dependency_propagations_total");
        lemma_low_id(metric_descs()[20]);
        reveal_with_fuel(low_hash, 30);
        assert({
            let a: u8 = low_steps(37u8, 100, 101, 112, 101, 110, 100, 101, 110);
            let b: u8 = low_steps(a, 99, 121, 95, 112, 114, 111, 112, 97);
            let c: u8 = low_steps(b, 103, 97, 116, 105, 111, 110, 115, 95);
            let d: u8 = low_step(low_step(low_step(low_step(c, 116), 111), 116), 97);
            low_step(low_step(d, 108), 255) == 248
        }) by (bit_vector);
    }
    assert(position(desc_id(metric_descs()[21]) as u8) == 21) by {
        reveal_strlit("webhook_executions_total");
        lemma_low_id(metric_descs()[21]);
        reveal_with_fuel(low_hash, 25);
        assert({
            let a: u8 = low_steps(37u8, 119, 101, 98, 104, 111, 111, 107, 95);
            let b: u8 = low_steps(a, 101, 120, 101, 99, 117, 116, 105, 111);
            let c: u8 = low_steps(b, 110, 115, 95, 116, 111, 116, 97, 108);
            low_step(c, 255) == 22
        }) by (bit_vector);
    }
    assert(position(desc_id(metric_descs()[22]) as u8) == 22) by {
        reveal_strlit("webhook_attempts_total");
        lemma_low_id(metric_descs()[22]);
        reveal_with_fuel(low_hash, 23);
        assert({
            let a: u8 = low_steps(37u8, 119, 101, 98, 104, 111, 111, 107, 95);
            let b: u8 = low_steps(a, 97, 116, 116, 101, 109, 112, 116, 115);
            let c: u8 = low_step(low_step(low_step(low_step(b, 95), 116), 111), 116);
            low_step(low_step(low_step(c, 97), 108), 255) == 177
        }) by (bit_vector);
    }
    assert(position(desc_id(metric_descs()[23]) as u8) == 23) by {
        reveal_strlit("webhook_idempotent_skips_total");
        lemma_low_id(metric_descs()[23]);
        reveal_with_fuel(low_hash, 31);
        assert({
            let a: u8 = low_steps(37u8, 119, 101, 98, 104, 111, 111, 107, 95);
            let b: u8 = low_steps(a, 105, 100, 101, 109, 112, 111, 116, 101);
            let c: u8 = low_steps(b, 110, 116, 95, 115, 107, 105, 112, 115);
            let d: u8 = low_step(low_step(low_step(low_step(c, 95), 116), 111), 116);
            low_step(low_step(low_step(d, 97), 108), 255) == 95
        }) by (bit_vector);
    }
    assert(position(desc_id(metric_descs()[24]) as u8) == 24) by {
        reveal_strlit("webhook_delivery_retries_total");
        lemma_low_id(metric_descs()[24]);
        reveal_with_fuel(low_hash, 31);
        assert({
            let a: u8 = low_steps(37u8, 119, 101, 98, 104, 111, 111, 107, 95);
            let b: u8 = low_steps(a, 100, 101, 108, 105, 118, 101, 114, 121);
            let c: u8 = low_steps(b, 95, 114, 101, 116, 114, 105, 101, 115);
            let d: u8 = low_step(low_step(low_step(low_step(c, 95), 116), 111), 116);
            low_step(low_step(low_step(d, 97), 108), 255) == 140
        }) by (bit_vector);
    }
}

/// The low bytes of the ids of the metrics 25 to 29 are the ones listed for them.
proof fn lemma_positions_25()
    ensures
        forall|i: int|
            25 <= i < 30 ==> position(desc_id(#[trigger] metric_descs()[i]) as u8) == i,
{
    assert(position(desc_id(metric_descs()[25]) as u8) == 25) by {
        reveal_strlit("webhook_delivery_exhausted_total");
        lemma_low_id(metric_descs()[25]);
        reveal_with_fuel(low_hash, 33);
        assert({
            let a: u8 = low_steps(37u8, 119, 101, 98, 104, 111, 111, 107, 95);
            let b: u8 = low_steps(a, 100, 101, 108, 105, 118, 101, 114, 121);
            let c: u8 = low_steps(b, 95, 101, 120, 104, 97, 117, 115, 116);
            let d: u8 = low_steps(c, 101, 100, 95, 116, 111, 116, 97, 108);
            low_step(d, 255) == 23
        }) by (bit_vector);
    }
    assert(position(desc_id(metric_descs()[26]) as u8) == 26) by {
        reveal_strlit("webhook_delivery_success_total");
        lemma_low_id(metric_descs()[26]);
        reveal_with_fuel(low_hash, 31);
        assert({
            let a: u8 = low_steps(37u8, 119, 101, 98, 104, 111, 111, 107, 95);
            let b: u8 = low_steps(a, 100, 101, 108, 105, 118, 101, 114, 121);
            let c: u8 = low_steps(b, 95, 115, 117, 99, 99, 101, 115, 115);
            let d: u8 = low_step(low_step(low_step(low_step(c, 95), 116), 111), 116);
            low_step(low_step(low_step(d, 97), 108), 255) == 79
        }) by (bit_vector);
    }
    assert(position(desc_id(metric_descs()[27]) as u8) == 27) by {
        reveal_strlit("webhook_mark_failures_total");
        lemma_low_id(metric_descs()[27]);
        reveal_with_fuel(low_hash, 28);
        assert({
            let a: u8 = low_steps(37u8, 119, 101, 98, 104, 111, 111, 107, 95);
            let b: u8 = low_steps(a, 109, 97, 114, 107, 95, 102, 97, 105);
            let c: u8 = low_steps(b, 108, 117, 114, 101, 115, 95, 116, 111);
            low_step(low_step(low_step(low_step(c, 116), 97), 108), 255) == 94
        }) by (bit_vector);
    }
    assert(position(desc_id(metric_descs()[28]) as u8) == 28) by {
        reveal_strlit("worker_loop_iterations_total");
        lemma_low_id(metric_descs()[28]);
        reveal_with_fuel(low_hash, 29);
        assert({
            let a: u8 = low_steps(37u8, 119, 111, 114, 107, 101, 114, 95, 108);
            let b: u8 = low_steps(a, 111, 111, 112, 95, 105, 116, 101, 114);
            let c: u8 = low_steps(b, 97, 116, 105, 111, 110, 115, 95, 116);
            let d: u8 = low_step(low_step(low_step(low_step(c, 111), 116), 97), 108);
            low_step(d, 255) == 163
        }) by (bit_vector);
    }
    assert(position(desc_id(metric_descs()[29]) as u8) == 29) by {
        reveal_strlit("slow_queries_total");
        lemma_low_id(metric_descs()[29]);
        reveal_with_fuel(low_hash, 19);
        assert({
            let a: u8 = low_steps(37u8, 115, 108, 111, 119, 95, 113, 117, 101);
            let b: u8 = low_steps(a, 114, 105, 101, 115, 95, 116, 111, 116);
            low_step(low_step(low_step(b, 97), 108), 255) == 107
        }) by (bit_vector);
    }
}

/// The low bytes of the ids of the metrics 30 to 34 are the ones listed for them.
proof fn lemma_positions_30()
    ensures
        forall|i: int|
            30 <= i < 35 ==> position(desc_id(#[trigger] metric_descs()[i]) as u8) == i,
{
    assert(position(desc_id(metric_descs()[30]) as u8) == 30) by {
        reveal_strlit("circuit_breaker_state_transitions_total");
        lemma_low_id(metric_descs()[30]);
        reveal_with_fuel(low_hash, 40);
        assert({
            let a: u8 = low_steps(37u8, 99, 105, 114, 99, 117, 105, 116, 95);
            let b: u8 = low_steps(a, 98, 114, 101, 97, 107, 101, 114, 95);
            let c: u8 = low_steps(b, 115, 116, 97, 116, 101, 95, 116, 114);
            let d: u8 = low_steps(c, 97, 110, 115, 105, 116, 105, 111, 110);
            let e: u8 = low_step(low_step(low_step(low_step(d, 115), 95), 116), 111);
            low_step(low_step(low_step(low_step(e, 116), 97), 108), 255) == 92
        }) by (bit_vector);
    }
    assert(position(desc_id(metric_descs()[31]) as u8) == 31) by {
        reveal_strlit("retention_cleanup_runs_total");
        lemma_low_id(metric_descs()[31]);
        reveal_with_fuel(low_hash, 29);
        assert({
            let a: u8 = low_steps(37u8, 114, 101, 116, 101, 110, 116, 105, 111);
            let b: u8 = low_steps(a, 110, 95, 99, 108, 101, 97, 110, 117);
            let c: u8 = low_steps(b, 112, 95, 114, 117, 110, 115, 95, 116);
            let d: u8 = low_step(low_step(low_step(low_step(c, 111), 116), 97), 108);
            low_step(d, 255) == 121
        }) by (bit_vector);
    }
    assert(position(desc_id(metric_descs()[32]) as u8) == 32) by {
        reveal_strlit("batch_channel_capacity_available");
        lemma_low_id(metric_descs()[32]);
        reveal_with_fuel(low_hash, 33);
        assert({
            let a: u8 = low_steps(37u8, 98, 97, 116, 99, 104, 95, 99, 104);
            let b: u8 = low_steps(a, 97, 110, 110, 101, 108, 95, 99, 97);
            let c: u8 = low_steps(b, 112, 97, 99, 105, 116, 121, 95, 97);
            let d: u8 = low_steps(c, 118, 97, 105, 108, 97, 98, 108, 101);
            low_step(d, 255) == 185
        }) by (bit_vector);
    }
    assert(position(desc_id(metric_descs()[33]) as u8) == 33) by {
        reveal_strlit("batch_updater_pending_tasks");
        lemma_low_id(metric_descs()[33]);
        reveal_with_fuel(low_hash, 28);
        assert({
            let a: u8 = low_steps(37u8, 98, 97, 116, 99, 104, 95, 117, 112);
            let b: u8 = low_steps(a, 100, 97, 116, 101, 114, 95, 112, 101);
            let c: u8 = low_steps(b, 110, 100, 105, 110, 103, 95, 116, 97);
            low_step(low_step(low_step(low_step(c, 115), 107), 115), 255) == 65
        }) by (bit_vector);
    }
    assert(position(desc_id(metric_descs()[34]) as u8) == 34) by {
        reveal_strlit("tasks_by_status");
        lemma_low_id(metric_descs()[34]);
        reveal_with_fuel(low_hash, 16);
        assert({
            let a: u8 = low_steps(37u8, 116, 97, 115, 107, 115, 95, 98, 121);
            let b: u8 = low_step(low_step(low_step(low_step(a, 95), 115), 116), 97);
            low_step(low_step(low_step(low_step(b, 116), 117), 115), 255) == 167
        }) by (bit_vector);
    }
}

/// The low bytes of the ids of the metrics 35 to 39 are the ones listed for them.
proof fn lemma_positions_35()
    ensures
        forall|i: int|
            35 <= i < 40 ==> position(desc_id(#[trigger] metric_descs()[i]) as u8) == i,
{
    assert(position(desc_id(metric_descs()[35]) as u8) == 35) by {
        reveal_strlit("running_tasks_by_kind");
        lemma_low_id(metric_descs()[35]);
        reveal_with_fuel(low_hash, 22);
        assert({
            let a: u8 = low_steps(37u8, 114, 117, 110, 110, 105, 110, 103, 95);
            let b: u8 = low_steps(a, 116, 97, 115, 107, 115, 95, 98, 121);
            let c: u8 = low_step(low_step(low_step(low_step(b, 95), 107), 105), 110);
            low_step(low_step(c, 100), 255) == 59
        }) by (bit_vector);
    }
    assert(position(desc_id(metric_descs()[36]) as u8) == 36) by {
        reveal_strlit("webhook_outbox_pending");
        lemma_low_id(metric_descs()[36]);
        reveal_with_fuel(low_hash, 23);
        assert({
            let a: u8 = low_steps(37u8, 119, 101, 98, 104, 111, 111, 107, 95);
            let b: u8 = low_steps(a, 111, 117, 116, 98, 111, 120, 95, 112);
            let c: u8 = low_step(low_step(low_step(low_step(b, 101), 110), 100), 105);
            low_step(low_step(low_step(c, 110), 103), 255) == 67
        }) by (bit_vector);
    }
    assert(position(desc_id(metric_descs()[37]) as u8) == 37) by {
        reveal_strlit("worker_loop_last_iteration_timestamp_seconds");
        lemma_low_id(metric_descs()[37]);
        reveal_with_fuel(low_hash, 45);
        assert({
            let a: u8 = low_steps(37u8, 119, 111, 114, 107, 101, 114, 95, 108);
            let b: u8 = low_steps(a, 111, 111, 112, 95, 108, 97, 115, 116);
            let c: u8 = low_steps(b, 95, 105, 116, 101, 114, 97, 116, 105);
            let d: u8 = low_steps(c, 111, 110, 95, 116, 105, 109, 101, 115);
            let e: u8 = low_steps(d, 116, 97, 109, 112, 95, 115, 101, 99);
            let f: u8 = low_step(low_step(low_step(low_step(e, 111), 110), 100), 115);
            low_step(f, 255) == 11
        }) by (bit_vector);
    }
    assert(position(desc_id(metric_descs()[38]) as u8) == 38) by {
        reveal_strlit("db_pool_connections");
        lemma_low_id(metric_descs()[38]);
        reveal_with_fuel(low_hash, 20);
        assert({
            let a: u8 = low_steps(37u8, 100, 98, 95, 112, 111, 111, 108, 95);
            let b: u8 = low_steps(a, 99, 111, 110, 110, 101, 99, 116, 105);
            low_step(low_step(low_step(low_step(b, 111), 110), 115), 255) == 217
        }) by (bit_vector);
    }
    assert(position(desc_id(metric_descs()[39]) as u8) == 39) by {
        reveal_strlit("webhooks_in_flight");
        lemma_low_id(metric_descs()[39]);
        reveal_with_fuel(low_hash, 19);
        assert({
            let a: u8 = low_steps(37u8, 119, 101, 98, 104, 111, 111, 107, 115);
            let b: u8 = low_steps(a, 95, 105, 110, 95, 102, 108, 105, 103);
            low_step(low_step(low_step(b, 104), 116), 255) == 251
        }) by (bit_vector);
    }
}

/// No two metrics have the same id, so that the registry takes all of them.
pub proof fn metric_ids_are_distinct()
    ensures
        crate::metrics::ids_distinct(metric_descs().len() as int),
{
    lemma_positions_0();
    lemma_positions_5();
    lemma_positions_10();
    lemma_positions_15();
    lemma_positions_20();
    lemma_positions_25();
    lemma_positions_30();
    lemma_positions_35();
    assert forall|i: int, j: int| 0 <= i < j < metric_descs().len() implies desc_id(
        #[trigger] metric_descs()[i],
    ) != desc_id(#[trigger] metric_descs()[j]) by {
        assert(position(desc_id(metric_descs()[i]) as u8) == i);
        assert(position(desc_id(metric_descs()[j]) as u8) == j);
    }
}

} // verus!
