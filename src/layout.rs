use vstd::prelude::*;

use crate::format::{frame, frameable, meta_len, body_len, MAX_I64};
use crate::ledger::Block;
use crate::tracker::{admits, find, is_new, MessageView};

verus! {

/// The bytes of one framed message.
pub open spec fn framed(m: MessageView) -> Seq<u8> {
    frame(m.0, m.1)
}

/// The bytes of several framed messages, one after the other.
pub open spec fn frames(ms: Seq<MessageView>) -> Seq<u8>
    decreases ms.len(),
{
    if ms.len() == 0 {
        Seq::empty()
    } else {
        frames(ms.drop_last()) + framed(ms.last())
    }
}

/// The block of a message written at `offset`.
pub open spec fn block_at(offset: int, m: MessageView) -> Block {
    Block {
        offset: offset as i64,
        meta_data_length: meta_len(m.0) as i32,
        body_length: body_len(m.1) as i64,
    }
}

/// The blocks of messages written one after the other from `offset` on.
pub open spec fn blocks_from(offset: int, ms: Seq<MessageView>) -> Seq<Block>
    decreases ms.len(),
{
    if ms.len() == 0 {
        Seq::empty()
    } else {
        blocks_from(offset, ms.drop_last()).push(
            block_at(offset + frames(ms.drop_last()).len(), ms.last()),
        )
    }
}

/// Whether messages written from `offset` on each have an `i32` metadata
/// length and all end before the largest `i64` offset.
pub open spec fn fits(offset: int, ms: Seq<MessageView>) -> bool
    decreases ms.len(),
{
    if ms.len() == 0 {
        true
    } else {
        fits(offset, ms.drop_last()) && frameable(ms.last().0, ms.last().1) && offset + frames(
            ms,
        ).len() <= MAX_I64
    }
}

/// Runs the dictionaries `ds` through a tracker that holds `entries`: the
/// tracker's entries afterwards and the dictionaries to write, in order, or
/// `None` where one would replace a dictionary that may not be replaced.
pub open spec fn track(
    entries: Map<i64, MessageView>,
    cannot_replace: bool,
    ds: Seq<(i64, MessageView)>,
) -> Option<(Map<i64, MessageView>, Seq<MessageView>)>
    decreases ds.len(),
{
    if ds.len() == 0 {
        Some((entries, Seq::empty()))
    } else {
        match track(entries, cannot_replace, ds.drop_last()) {
            None => None,
            Some(prev) => {
                let (id, d) = ds.last();
                if !admits(prev.0, cannot_replace, id, d) {
                    None
                } else if is_new(prev.0, id, d) {
                    Some((prev.0.insert(id, d), prev.1.push(d)))
                } else {
                    Some(prev)
                }
            },
        }
    }
}

/// The length of framed messages grows by the two lengths of each message.
pub proof fn lemma_frames_len(ms: Seq<MessageView>)
    ensures
        ms.len() > 0 ==> frames(ms).len() == frames(ms.drop_last()).len() + meta_len(
            ms.last().0,
        ) + body_len(ms.last().1),
{
    if ms.len() > 0 {
        assert(framed(ms.last()).len() == meta_len(ms.last().0) + body_len(ms.last().1));
    }
}

/// What one more message adds: its bytes, its block, and its own room.
pub proof fn lemma_push(offset: int, ms: Seq<MessageView>, m: MessageView)
    ensures
        frames(ms.push(m)) == frames(ms) + framed(m),
        blocks_from(offset, ms.push(m)) == blocks_from(offset, ms).push(
            block_at(offset + frames(ms).len(), m),
        ),
        fits(offset, ms.push(m)) == (fits(offset, ms) && fits(
            offset + frames(ms).len(),
            seq![m],
        )),
        frames(seq![m]) == framed(m),
{
    assert(ms.push(m).drop_last() =~= ms);
    assert(seq![m].drop_last() =~= Seq::<MessageView>::empty());
    assert(frames(Seq::<MessageView>::empty()) == Seq::<u8>::empty());
    assert(fits(offset + frames(ms).len(), Seq::<MessageView>::empty()));
    assert(frames(seq![m]) =~= framed(m));
    assert(frames(ms.push(m)) == frames(ms) + framed(m));
}

/// One message fits where it has an `i32` metadata length and ends before
/// the largest `i64` offset.
pub proof fn lemma_single_fits(offset: int, m: MessageView)
    ensures
        fits(offset, seq![m]) == (frameable(m.0, m.1) && offset + meta_len(m.0) + body_len(m.1)
            <= MAX_I64),
        fits(offset, Seq::<MessageView>::empty()),
{
    let one = seq![m];
    assert(one.drop_last() =~= Seq::<MessageView>::empty());
    assert(one.last() == m);
    assert(fits(offset, Seq::<MessageView>::empty()));
    assert(frames(Seq::<MessageView>::empty()) == Seq::<u8>::empty());
    assert(frames(one) =~= framed(m));
    assert(framed(m).len() == meta_len(m.0) + body_len(m.1));
    assert(fits(offset, one) == (fits(offset, one.drop_last()) && frameable(one.last().0, one.last().1)
        && offset + frames(one).len() <= MAX_I64));
}

/// A tracker that refuses a prefix of the dictionaries refuses them all.
pub proof fn lemma_track_refuses(
    entries: Map<i64, MessageView>,
    cannot_replace: bool,
    ds: Seq<(i64, MessageView)>,
    k: int,
)
    requires
        0 <= k <= ds.len(),
        track(entries, cannot_replace, ds.take(k)) is None,
    ensures
        track(entries, cannot_replace, ds) is None,
    decreases ds.len(),
{
    if k == ds.len() {
        assert(ds.take(k) =~= ds);
    } else {
        assert(ds.drop_last().take(k) =~= ds.take(k));
        lemma_track_refuses(entries, cannot_replace, ds.drop_last(), k);
    }
}

/// Once a dictionary is recorded under its id, giving it again writes nothing
/// and leaves the tracker as it is.
pub proof fn lemma_known_dictionary_not_rewritten(entries: Map<i64, MessageView>, id: i64, d: MessageView)
    requires
        find(entries, id) == Some(d),
    ensures
        track(entries, true, seq![(id, d)]) == Some((entries, Seq::<MessageView>::empty())),
{
    let ds = seq![(id, d)];
    assert(ds.drop_last() =~= Seq::<(i64, MessageView)>::empty());
    assert(track(entries, true, ds.drop_last()) == Some((entries, Seq::<MessageView>::empty())));
}

/// A dictionary that the tracker admits is written once and then known under
/// its id: giving it twice in a row writes it exactly once.
pub proof fn lemma_repeated_dictionary_written_once(
    entries: Map<i64, MessageView>,
    id: i64,
    d: MessageView,
)
    requires
        admits(entries, true, id, d),
    ensures
        track(entries, true, seq![(id, d)]) matches Some(t) && find(t.0, id) == Some(d),
        track(entries, true, seq![(id, d), (id, d)]) == track(entries, true, seq![(id, d)]),
        find(entries, id) is None ==> track(entries, true, seq![(id, d), (id, d)]) == Some(
            (entries.insert(id, d), seq![d]),
        ),
{
    let one = seq![(id, d)];
    let two = seq![(id, d), (id, d)];
    assert(one.drop_last() =~= Seq::<(i64, MessageView)>::empty());
    assert(two.drop_last() =~= one);
    assert(track(entries, true, one.drop_last()) == Some((entries, Seq::<MessageView>::empty())));
    let t = track(entries, true, one).unwrap();
    if is_new(entries, id, d) {
        assert(t.0 == entries.insert(id, d));
        assert(find(t.0, id) == Some(d));
        assert(seq![d] =~= Seq::<MessageView>::empty().push(d));
    } else {
        assert(find(entries, id) == Some(d));
    }
}

/// Messages that fit, fit in every prefix.
pub proof fn lemma_fits_prefix(offset: int, ms: Seq<MessageView>, k: int)
    requires
        fits(offset, ms),
        0 <= k <= ms.len(),
    ensures
        fits(offset, ms.take(k)),
    decreases ms.len(),
{
    if k == ms.len() {
        assert(ms.take(k) =~= ms);
    } else {
        assert(ms.drop_last().take(k) =~= ms.take(k));
        lemma_fits_prefix(offset, ms.drop_last(), k);
    }
}

/// The bytes of messages written one after the other begin with the bytes
/// of each of their prefixes.
pub proof fn lemma_frames_prefix(ms: Seq<MessageView>, k: int)
    requires
        0 <= k <= ms.len(),
    ensures
        frames(ms.take(k)).len() <= frames(ms).len(),
        frames(ms).subrange(0, frames(ms.take(k)).len() as int) == frames(ms.take(k)),
    decreases ms.len(),
{
    if k == ms.len() {
        assert(ms.take(k) =~= ms);
        assert(frames(ms).subrange(0, frames(ms).len() as int) =~= frames(ms));
    } else {
        let p = ms.drop_last();
        assert(p.take(k) =~= ms.take(k));
        lemma_frames_prefix(p, k);
        let n = frames(ms.take(k)).len() as int;
        assert(frames(ms).subrange(0, n) =~= frames(p).subrange(0, n));
    }
}

/// Each block of messages written one after the other starts where the bytes
/// before it end, and its two lengths add up to exactly the bytes of its
/// message, which stand at that place.
#[verifier::rlimit(40)]
pub proof fn lemma_blocks_locate_messages(offset: int, ms: Seq<MessageView>, i: int)
    requires
        fits(offset, ms),
        0 <= offset,
        0 <= i < ms.len(),
    ensures
        blocks_from(offset, ms).len() == ms.len(),
        blocks_from(offset, ms)[i].offset == offset + frames(ms.take(i)).len(),
        blocks_from(offset, ms)[i].meta_data_length + blocks_from(offset, ms)[i].body_length
            == framed(ms[i]).len(),
        frames(ms).subrange(
            frames(ms.take(i)).len() as int,
            (frames(ms.take(i)).len() + framed(ms[i]).len()) as int,
        ) == framed(ms[i]),
{
    let q = ms.take(i + 1);
    let t = ms.take(i);
    lemma_blocks_len(offset, ms);
    lemma_fits_prefix(offset, ms, i + 1);
    lemma_blocks_prefix(offset, ms, i + 1);
    lemma_frames_prefix(ms, i + 1);
    assert(q =~= t.push(ms[i]));
    lemma_push(offset, t, ms[i]);
    lemma_blocks_len(offset, t);
    assert(blocks_from(offset, ms)[i] == blocks_from(offset, q)[i]);
    let a = frames(t).len() as int;
    let n = framed(ms[i]).len() as int;
    assert(frames(ms).subrange(a, a + n) =~= frames(q).subrange(a, a + n));
    assert(frames(q).subrange(a, a + n) =~= framed(ms[i]));
}

/// Messages written after the bytes `before`: each one's block holds the
/// number of bytes written before it, and the bytes that its block spans are
/// exactly that message.
pub proof fn lemma_written_blocks_locate_messages(before: Seq<u8>, ms: Seq<MessageView>, i: int)
    requires
        fits(before.len() as int, ms),
        0 <= i < ms.len(),
    ensures
        ({
            let f = before + frames(ms);
            let b = blocks_from(before.len() as int, ms)[i];
            &&& b.offset == (before + frames(ms.take(i))).len()
            &&& b.meta_data_length + b.body_length == framed(ms[i]).len()
            &&& f.subrange(b.offset as int, b.offset + b.meta_data_length + b.body_length) == framed(
                ms[i],
            )
        }),
{
    let off = before.len() as int;
    lemma_blocks_locate_messages(off, ms, i);
    let a = frames(ms.take(i)).len() as int;
    let n = framed(ms[i]).len() as int;
    lemma_frames_prefix(ms, i + 1);
    assert(ms.take(i + 1) =~= ms.take(i).push(ms[i]));
    lemma_push(off, ms.take(i), ms[i]);
    let f = before + frames(ms);
    assert(f.subrange(off + a, off + a + n) =~= frames(ms).subrange(a, a + n));
}

/// The blocks of a prefix of messages are a prefix of their blocks.
proof fn lemma_blocks_prefix(offset: int, ms: Seq<MessageView>, k: int)
    requires
        0 <= k <= ms.len(),
    ensures
        blocks_from(offset, ms.take(k)).len() == k,
        forall|j: int| 0 <= j < k ==> blocks_from(offset, ms)[j] == blocks_from(offset, ms.take(k))[j],
    decreases ms.len(),
{
    lemma_blocks_len(offset, ms.take(k));
    if k < ms.len() {
        let p = ms.drop_last();
        assert(p.take(k) =~= ms.take(k));
        lemma_blocks_prefix(offset, p, k);
        lemma_blocks_len(offset, p);
    } else {
        assert(ms.take(k) =~= ms);
    }
}

proof fn lemma_blocks_len(offset: int, ms: Seq<MessageView>)
    ensures
        blocks_from(offset, ms).len() == ms.len(),
    decreases ms.len(),
{
    if ms.len() > 0 {
        lemma_blocks_len(offset, ms.drop_last());
    }
}

} // verus!
