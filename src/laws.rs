//! What holds of a run of writes: where the index puts each value, how many bytes
//! it counts, and that replaying the written bytes rebuilds the same index.
use vstd::prelude::*;
use vstd::utf8::*;

use crate::index::{line_key, replay, IndexModel, Span};
use crate::record::{
    byte_len, first_index_of, lacks, lemma_encode_avoids, lemma_encode_record,
    lemma_first_index_of_skip, record_text, ENTRY_SEPARATOR, KV_SEPARATOR,
};

verus! {

/// The bytes that the writes `w`, each a key and a value, append to the data file.
pub open spec fn log_bytes(w: Seq<(Seq<char>, Seq<char>)>) -> Seq<u8>
    decreases w.len(),
{
    if w.len() == 0 {
        Seq::empty()
    } else {
        encode_utf8(record_text(w[0].0, w[0].1)) + log_bytes(w.drop_first())
    }
}

/// The index after the writes `w` were recorded onto `m`, in order.
pub open spec fn apply_writes(m: IndexModel, w: Seq<(Seq<char>, Seq<char>)>) -> IndexModel
    decreases w.len(),
{
    if w.len() == 0 {
        m
    } else {
        apply_writes(m.record(w[0].0, byte_len(record_text(w[0].0, w[0].1))), w.drop_first())
    }
}

/// Writes whose records read back as written: keys hold neither separator nor
/// terminator, and values hold no terminator.
pub open spec fn replayable(w: Seq<(Seq<char>, Seq<char>)>) -> bool {
    forall|i: int|
        0 <= i < w.len() ==> lacks(#[trigger] w[i].0, ',') && lacks(w[i].0, '\n') && lacks(
            w[i].1,
            '\n',
        )
}

/// The span that the index gives to the value of a record for `key` that starts
/// at byte `start`.
pub open spec fn value_span(start: nat, key: Seq<char>, value: Seq<char>) -> Span {
    Span { offset: start + byte_len(key) + 1, size: byte_len(value) }
}

/// The index counts exactly the bytes that the writes appended.
pub proof fn lemma_cumulative_byte_count(m: IndexModel, w: Seq<(Seq<char>, Seq<char>)>)
    ensures
        apply_writes(m, w).cursor == m.cursor + log_bytes(w).len(),
    decreases w.len(),
{
    if w.len() > 0 {
        lemma_encode_record(w[0].0, w[0].1);
        lemma_cumulative_byte_count(
            m.record(w[0].0, byte_len(record_text(w[0].0, w[0].1))),
            w.drop_first(),
        );
    }
}

/// Writes to other keys leave the location of `key` as it was.
pub proof fn lemma_other_writes_keep(m: IndexModel, w: Seq<(Seq<char>, Seq<char>)>, key: Seq<char>)
    requires
        forall|j: int| 0 <= j < w.len() ==> #[trigger] w[j].0 != key,
    ensures
        apply_writes(m, w).locations.contains_key(key) == m.locations.contains_key(key),
        apply_writes(m, w).locations[key] == m.locations[key],
    decreases w.len(),
{
    if w.len() > 0 {
        let rest = w.drop_first();
        assert forall|j: int| 0 <= j < rest.len() implies #[trigger] rest[j].0 != key by {
            assert(rest[j] == w[j + 1]);
        }
        lemma_other_writes_keep(
            m.record(w[0].0, byte_len(record_text(w[0].0, w[0].1))),
            rest,
            key,
        );
    }
}

/// A key that no write names is not in the index after those writes, starting empty.
pub proof fn lemma_unwritten_key_absent(w: Seq<(Seq<char>, Seq<char>)>, key: Seq<char>)
    requires
        forall|j: int| 0 <= j < w.len() ==> #[trigger] w[j].0 != key,
    ensures
        !apply_writes(IndexModel::empty(), w).locations.contains_key(key),
{
    lemma_other_writes_keep(IndexModel::empty(), w, key);
}

proof fn lemma_locations_from(
    m: IndexModel,
    f: Seq<u8>,
    w: Seq<(Seq<char>, Seq<char>)>,
    i: int,
)
    requires
        m.cursor == f.len(),
        0 <= i < w.len(),
        forall|j: int| i < j < w.len() ==> #[trigger] w[j].0 != w[i].0,
    ensures
        ({
            let loc = apply_writes(m, w).locations[w[i].0];
            &&& apply_writes(m, w).locations.contains_key(w[i].0)
            &&& (f + log_bytes(w)).subrange(loc.offset as int, (loc.offset + loc.size) as int)
                == encode_utf8(w[i].1)
        }),
    decreases w.len(),
{
    let (k0, v0) = w[0];
    let rec = encode_utf8(record_text(k0, v0));
    let m1 = m.record(k0, byte_len(record_text(k0, v0)));
    let rest = w.drop_first();
    lemma_encode_record(k0, v0);
    assert(f + log_bytes(w) =~= (f + rec) + log_bytes(rest));
    if i > 0 {
        assert forall|j: int| i - 1 < j < rest.len() implies #[trigger] rest[j].0 != rest[i
            - 1].0 by {
            assert(rest[j] == w[j + 1]);
        }
        lemma_locations_from(m1, f + rec, rest, i - 1);
    } else {
        assert forall|j: int| 0 <= j < rest.len() implies #[trigger] rest[j].0 != k0 by {
            assert(rest[j] == w[j + 1]);
        }
        lemma_other_writes_keep(m1, rest, k0);
        let all = (f + rec) + log_bytes(rest);
        let start = f.len() + encode_utf8(k0).len() + 1;
        assert(m1.locations[k0] == value_span(f.len(), k0, v0));
        assert(all.subrange(start as int, (start + encode_utf8(v0).len()) as int) =~= encode_utf8(v0));
    }
}

/// Offset arithmetic: after a run of writes to an empty store, the location that the
/// index holds for the key of the last write to it covers, in the bytes those writes
/// appended, exactly the encoding of that write's value.
pub proof fn lemma_offset_arithmetic(w: Seq<(Seq<char>, Seq<char>)>, i: int)
    requires
        0 <= i < w.len(),
        forall|j: int| i < j < w.len() ==> #[trigger] w[j].0 != w[i].0,
    ensures
        ({
            let loc = apply_writes(IndexModel::empty(), w).locations[w[i].0];
            &&& apply_writes(IndexModel::empty(), w).locations.contains_key(w[i].0)
            &&& log_bytes(w).subrange(loc.offset as int, (loc.offset + loc.size) as int)
                == encode_utf8(w[i].1)
        }),
{
    lemma_locations_from(IndexModel::empty(), Seq::empty(), w, i);
    assert(Seq::<u8>::empty() + log_bytes(w) =~= log_bytes(w));
}

/// Last write wins: after `key` is written with `v1` and then with `v2`, the file holds
/// both records, and the index locates `v2`.
pub proof fn lemma_last_write_wins(key: Seq<char>, v1: Seq<char>, v2: Seq<char>)
    ensures
        ({
            let w = seq![(key, v1), (key, v2)];
            let loc = apply_writes(IndexModel::empty(), w).locations[key];
            &&& log_bytes(w) == encode_utf8(record_text(key, v1)) + encode_utf8(
                record_text(key, v2),
            )
            &&& apply_writes(IndexModel::empty(), w).locations.contains_key(key)
            &&& log_bytes(w).subrange(loc.offset as int, (loc.offset + loc.size) as int)
                == encode_utf8(v2)
        }),
{
    let w = seq![(key, v1), (key, v2)];
    assert(w.drop_first() =~= seq![(key, v2)]);
    assert(w.drop_first().drop_first() =~= Seq::<(Seq<char>, Seq<char>)>::empty());
    assert(log_bytes(w.drop_first().drop_first()) == Seq::<u8>::empty());
    assert(log_bytes(w.drop_first()) =~= encode_utf8(record_text(key, v2)));
    assert(log_bytes(w) =~= encode_utf8(record_text(key, v1)) + encode_utf8(
        record_text(key, v2),
    ));
    lemma_offset_arithmetic(w, 1);
}

proof fn lemma_replay_step(m: IndexModel, key: Seq<char>, value: Seq<char>, rest: Seq<u8>)
    requires
        lacks(key, ','),
        lacks(key, '\n'),
        lacks(value, '\n'),
    ensures
        replay(m, encode_utf8(record_text(key, value)) + rest) == replay(
            m.record(key, byte_len(record_text(key, value))),
            rest,
        ),
{
    let ek = encode_utf8(key);
    let ev = encode_utf8(value);
    let b = encode_utf8(record_text(key, value)) + rest;
    lemma_encode_record(key, value);
    lemma_encode_avoids(key, ',');
    lemma_encode_avoids(key, '\n');
    lemma_encode_avoids(value, '\n');
    let line = ek + seq![KV_SEPARATOR] + ev;
    assert(b =~= line + (seq![ENTRY_SEPARATOR] + rest));
    assert forall|j: int| 0 <= j < line.len() implies line[j] != ENTRY_SEPARATOR by {
        if j < ek.len() {
            assert(line[j] == ek[j]);
        } else if j > ek.len() {
            assert(line[j] == ev[j - ek.len() - 1]);
        }
    }
    lemma_first_index_of_skip(line, seq![ENTRY_SEPARATOR] + rest, ENTRY_SEPARATOR);
    let p = first_index_of(b, ENTRY_SEPARATOR) as int;
    assert(p == line.len());
    assert(b.subrange(0, p) =~= line);
    assert(b.subrange(p + 1, b.len() as int) =~= rest);
    assert(line =~= ek + (seq![KV_SEPARATOR] + ev));
    lemma_first_index_of_skip(ek, seq![KV_SEPARATOR] + ev, KV_SEPARATOR);
    assert(line.subrange(0, ek.len() as int) =~= ek);
    encode_utf8_decode_utf8(key);
    assert(line_key(line) == Some(key));
}

proof fn lemma_replay_writes_from(m: IndexModel, w: Seq<(Seq<char>, Seq<char>)>)
    requires
        replayable(w),
    ensures
        replay(m, log_bytes(w)) == Some(apply_writes(m, w)),
    decreases w.len(),
{
    if w.len() > 0 {
        let rest = w.drop_first();
        assert(replayable(w.drop_first())) by {
            assert forall|j: int| 0 <= j < rest.len() implies rest[j] == w[j + 1] by {}
        }
        lemma_replay_step(m, w[0].0, w[0].1, log_bytes(rest));
        lemma_replay_writes_from(m.record(w[0].0, byte_len(record_text(w[0].0, w[0].1))), rest);
    }
}

/// Replay equivalence: replaying the bytes that a run of writes appended to an empty
/// file rebuilds the index that recording those writes built.
pub proof fn lemma_replay_equivalence(w: Seq<(Seq<char>, Seq<char>)>)
    requires
        replayable(w),
    ensures
        replay(IndexModel::empty(), log_bytes(w)) == Some(apply_writes(IndexModel::empty(), w)),
{
    lemma_replay_writes_from(IndexModel::empty(), w);
}

} // verus!
