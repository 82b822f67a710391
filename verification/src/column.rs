//! Run-length encoded voxel columns and their codec.

use vstd::prelude::*;
use vstd::arithmetic::div_mod::lemma_fundamental_div_mod;
use crate::range::RleRange;
use crate::range::lemma_range_word_roundtrip;
use crate::voxel::RgbVoxel;
use crate::voxel::lemma_voxel_word_roundtrip;

verus! {

/// One unpacked run-length encoded vertical column: the ordered ranges,
/// and one flat color list consumed across the whole column in range
/// order (not reset between ranges).
#[derive(Clone, Debug, PartialEq, Eq)]
pub struct RleColumn {
    /// Ranges of skipped-drawn voxels.  May or may not contain the first
    /// range, depending on how the column is used.
    pub ranges: Vec<RleRange>,
    /// Color data for the drawn voxels of `ranges`.
    pub colors: Vec<RgbVoxel>,
}

/// Every range fits its bit fields.
pub open spec fn ranges_wf(rs: Seq<RleRange>) -> bool {
    forall|i: int| 0 <= i < rs.len() ==> #[trigger] rs[i].wf()
}

/// Every voxel fits its bit fields.
pub open spec fn colors_wf(cs: Seq<RgbVoxel>) -> bool {
    forall|i: int| 0 <= i < cs.len() ==> #[trigger] cs[i].wf()
}

/// Total number of drawn voxels across a range list.
pub open spec fn total_drawn(rs: Seq<RleRange>) -> int
    decreases rs.len(),
{
    if rs.len() == 0 {
        0
    } else {
        rs[0].drawn + total_drawn(rs.drop_first())
    }
}

/// `n` empty voxels in a row.
pub open spec fn empty_run(n: int) -> Seq<RgbVoxel> {
    Seq::new(n as nat, |i: int| RgbVoxel::empty_spec())
}

/// What a range list means: each range contributes its skipped empty
/// voxels, then its drawn voxels pulled in order from the color list by
/// one running cursor.
pub open spec fn decompress_spec(rs: Seq<RleRange>, cs: Seq<RgbVoxel>) -> Seq<RgbVoxel>
    decreases rs.len(),
{
    if rs.len() == 0 {
        Seq::empty()
    } else {
        empty_run(rs[0].skipped as int) + cs.take(rs[0].drawn as int)
            + decompress_spec(rs.drop_first(), cs.skip(rs[0].drawn as int))
    }
}

/// The non-empty voxels of a column, in order.  These are exactly the
/// colors that compression records.
pub open spec fn drawn_colors(v: Seq<RgbVoxel>) -> Seq<RgbVoxel>
    decreases v.len(),
{
    if v.len() == 0 {
        Seq::empty()
    } else if v[0] == RgbVoxel::empty_spec() {
        drawn_colors(v.drop_first())
    } else {
        seq![v[0]] + drawn_colors(v.drop_first())
    }
}

/// The ranges compression produces, starting from a pending state of
/// `skipped` empty and `drawn` occupied voxels already seen.  Two
/// overflow rules split long runs: a skip run is flushed when its
/// counter stands at 1023, and a drawn run is flushed when its counter
/// stands at 63, the current voxel then being reprocessed from the
/// skipping state.
pub open spec fn compress_ranges(v: Seq<RgbVoxel>, skipped: int, drawn: int) -> Seq<RleRange>
    decreases v.len(),
{
    if v.len() == 0 {
        if skipped > 0 || drawn > 0 {
            seq![RleRange { skipped: skipped as u16, drawn: drawn as u8 }]
        } else {
            Seq::empty()
        }
    } else {
        let c = v[0];
        let rest = v.drop_first();
        if drawn == 0 {
            if skipped == 1023 {
                seq![RleRange { skipped: 1023, drawn: 0 }] + if c == RgbVoxel::empty_spec() {
                    compress_ranges(rest, 1, 0)
                } else {
                    compress_ranges(rest, 0, 1)
                }
            } else if c == RgbVoxel::empty_spec() {
                compress_ranges(rest, skipped + 1, 0)
            } else {
                compress_ranges(rest, skipped, 1)
            }
        } else {
            if drawn == 63 {
                seq![RleRange { skipped: skipped as u16, drawn: 63 }] + if c
                    == RgbVoxel::empty_spec() {
                    compress_ranges(rest, 1, 0)
                } else {
                    compress_ranges(rest, 0, 1)
                }
            } else if c == RgbVoxel::empty_spec() {
                seq![RleRange { skipped: skipped as u16, drawn: drawn as u8 }] + compress_ranges(
                    rest,
                    1,
                    0,
                )
            } else {
                compress_ranges(rest, skipped, drawn + 1)
            }
        }
    }
}

/// Appending a voxel extends the drawn color list by that voxel exactly
/// when it is not empty.
proof fn lemma_drawn_colors_push(s: Seq<RgbVoxel>, x: RgbVoxel)
    ensures
        drawn_colors(s.push(x)) == drawn_colors(s) + if x == RgbVoxel::empty_spec() {
            Seq::<RgbVoxel>::empty()
        } else {
            seq![x]
        },
    decreases s.len(),
{
    let tail = if x == RgbVoxel::empty_spec() {
        Seq::<RgbVoxel>::empty()
    } else {
        seq![x]
    };
    if s.len() == 0 {
        assert(s.push(x)[0] == x);
        assert(s.push(x).drop_first() =~= Seq::<RgbVoxel>::empty());
        assert(drawn_colors(Seq::<RgbVoxel>::empty()) =~= Seq::<RgbVoxel>::empty());
        assert(drawn_colors(s.push(x)) =~= drawn_colors(s) + tail);
    } else {
        assert(s.push(x)[0] == s[0]);
        assert(s.push(x).drop_first() =~= s.drop_first().push(x));
        lemma_drawn_colors_push(s.drop_first(), x);
        if s[0] == RgbVoxel::empty_spec() {
            assert(drawn_colors(s.push(x)) == drawn_colors(s.drop_first().push(x)));
        } else {
            assert(drawn_colors(s.push(x)) =~= drawn_colors(s) + tail);
        }
    }
}

/// Concatenated little-endian wire bytes of a range list.
pub open spec fn ranges_bytes(rs: Seq<RleRange>) -> Seq<u8> {
    Seq::new(
        2 * rs.len(),
        |j: int|
            if j % 2 == 0 {
                (rs[j / 2].word() % 256) as u8
            } else {
                (rs[j / 2].word() / 256) as u8
            },
    )
}

/// Concatenated little-endian wire bytes of a color list.
pub open spec fn voxels_bytes(cs: Seq<RgbVoxel>) -> Seq<u8> {
    Seq::new(
        2 * cs.len(),
        |j: int|
            if j % 2 == 0 {
                (cs[j / 2].word() % 256) as u8
            } else {
                (cs[j / 2].word() / 256) as u8
            },
    )
}

/// The packed form of a column: all range words, then all color words.
pub open spec fn packed_bytes(rs: Seq<RleRange>, cs: Seq<RgbVoxel>) -> Seq<u8> {
    ranges_bytes(rs) + voxels_bytes(cs)
}

/// `n` ranges decoded from consecutive words at byte offset `off`.
pub open spec fn decoded_ranges(bytes: Seq<u8>, off: int, n: int) -> Seq<RleRange> {
    Seq::new(n as nat, |k: int| RleRange::of_word(bytes[off + 2 * k] + bytes[off + 2 * k + 1] * 256))
}

/// `n` voxels decoded from consecutive words at byte offset `off`.
pub open spec fn decoded_voxels(bytes: Seq<u8>, off: int, n: int) -> Seq<RgbVoxel> {
    Seq::new(
        n as nat,
        |k: int| RgbVoxel::of_word(bytes[off + 2 * k] + bytes[off + 2 * k + 1] * 256),
    )
}

/// The head ranges a cached first range contributes, if one is given.
pub open spec fn first_seq(fr: Option<RleRange>) -> Seq<RleRange> {
    match fr {
        None => Seq::empty(),
        Some(r) => seq![r],
    }
}

/// Decoding inverts packing wherever a packed column sits inside a
/// larger buffer: the ranges and colors come back exactly as they went
/// in.
pub proof fn lemma_decoded_at_offset(b: Seq<u8>, off: int, rs: Seq<RleRange>, cs: Seq<RgbVoxel>)
    requires
        ranges_wf(rs),
        colors_wf(cs),
        0 <= off,
        off + 2 * rs.len() + 2 * cs.len() <= b.len(),
        b.subrange(off, off + 2 * rs.len() + 2 * cs.len()) == packed_bytes(rs, cs),
    ensures
        decoded_ranges(b, off, rs.len() as int) == rs,
        decoded_voxels(b, off + 2 * (rs.len() as int), cs.len() as int) == cs,
{
    let win = b.subrange(off, off + 2 * rs.len() + 2 * cs.len());
    assert forall|k: int| 0 <= k < rs.len() implies decoded_ranges(b, off, rs.len() as int)[k]
        == rs[k] by {
        lemma_range_word_roundtrip(rs[k]);
        let w = rs[k].word();
        lemma_fundamental_div_mod(w, 256);
        assert(b[off + 2 * k] == win[2 * k]);
        assert(b[off + 2 * k + 1] == win[2 * k + 1]);
        assert(win[2 * k] == packed_bytes(rs, cs)[2 * k]);
        assert(packed_bytes(rs, cs)[2 * k] == ranges_bytes(rs)[2 * k]);
        assert(ranges_bytes(rs)[2 * k] == (w % 256) as u8);
        assert(ranges_bytes(rs)[2 * k + 1] == (w / 256) as u8);
        assert(b[off + 2 * k] + b[off + 2 * k + 1] * 256 == w);
    }
    assert(decoded_ranges(b, off, rs.len() as int) =~= rs);
    let cof = off + 2 * (rs.len() as int);
    assert forall|k: int| 0 <= k < cs.len() implies decoded_voxels(b, cof, cs.len() as int)[k]
        == cs[k] by {
        lemma_voxel_word_roundtrip(cs[k]);
        let w = cs[k].word();
        lemma_fundamental_div_mod(w, 256);
        assert(b[cof + 2 * k] == win[2 * rs.len() + 2 * k]);
        assert(b[cof + 2 * k + 1] == win[2 * rs.len() + 2 * k + 1]);
        assert(win[2 * rs.len() + 2 * k] == packed_bytes(rs, cs)[2 * rs.len() + 2 * k]);
        assert(packed_bytes(rs, cs)[2 * rs.len() + 2 * k] == voxels_bytes(cs)[2 * k]);
        assert(voxels_bytes(cs)[2 * k] == (w % 256) as u8);
        assert(voxels_bytes(cs)[2 * k + 1] == (w / 256) as u8);
        assert(b[cof + 2 * k] + b[cof + 2 * k + 1] * 256 == w);
    }
    assert(decoded_voxels(b, cof, cs.len() as int) =~= cs);
}

/// Packing is lossless: a well-formed column is reconstructed exactly
/// from its own packed bytes, read back with its own range count and no
/// cached head.
pub proof fn lemma_pack_unpack_roundtrip(rs: Seq<RleRange>, cs: Seq<RgbVoxel>)
    requires
        ranges_wf(rs),
        colors_wf(cs),
    ensures
        decoded_ranges(packed_bytes(rs, cs), 0, rs.len() as int) == rs,
        decoded_voxels(packed_bytes(rs, cs), 2 * (rs.len() as int), cs.len() as int) == cs,
{
    let b = packed_bytes(rs, cs);
    assert(b.subrange(0, 2 * (rs.len() as int) + 2 * (cs.len() as int)) =~= b);
    lemma_decoded_at_offset(b, 0, rs, cs);
}

/// The drawn total of every range list is nonnegative.
proof fn lemma_total_drawn_nonneg(rs: Seq<RleRange>)
    ensures
        total_drawn(rs) >= 0,
    decreases rs.len(),
{
    if rs.len() > 0 {
        lemma_total_drawn_nonneg(rs.drop_first());
    }
}

/// The drawn total distributes over appending one range.
proof fn lemma_total_drawn_push(rs: Seq<RleRange>, r: RleRange)
    ensures
        total_drawn(rs.push(r)) == total_drawn(rs) + r.drawn,
    decreases rs.len(),
{
    if rs.len() == 0 {
        assert(rs.push(r)[0] == r);
        assert(rs.push(r).drop_first() =~= Seq::<RleRange>::empty());
        assert(total_drawn(Seq::<RleRange>::empty()) == 0);
    } else {
        assert(rs.push(r)[0] == rs[0]);
        assert(rs.push(r).drop_first() =~= rs.drop_first().push(r));
        lemma_total_drawn_push(rs.drop_first(), r);
    }
}

/// The drawn total splits across any cut of the range list.
proof fn lemma_total_drawn_split(rs: Seq<RleRange>, k: int)
    requires
        0 <= k <= rs.len(),
    ensures
        total_drawn(rs) == total_drawn(rs.take(k)) + total_drawn(rs.skip(k)),
    decreases rs.len(),
{
    if k == 0 {
        assert(rs.take(0) =~= Seq::<RleRange>::empty());
        assert(rs.skip(0) =~= rs);
    } else {
        let t = rs.drop_first();
        assert(rs.take(k)[0] == rs[0]);
        assert(rs.take(k).drop_first() =~= t.take(k - 1));
        assert(rs.skip(k) =~= t.skip(k - 1));
        lemma_total_drawn_split(t, k - 1);
    }
}

/// Unfolding of `decompress_spec` on a list with an explicit head.
proof fn lemma_decompress_cons(r: RleRange, t: Seq<RleRange>, cs: Seq<RgbVoxel>)
    ensures
        decompress_spec(seq![r] + t, cs) == empty_run(r.skipped as int) + cs.take(r.drawn as int)
            + decompress_spec(t, cs.skip(r.drawn as int)),
{
    assert((seq![r] + t)[0] == r);
    assert((seq![r] + t).drop_first() =~= t);
}

/// Decompressing one more range appends its skipped empties and its
/// slice of the color list.
proof fn lemma_decompress_push(rs: Seq<RleRange>, r: RleRange, cs: Seq<RgbVoxel>)
    requires
        total_drawn(rs) + r.drawn <= cs.len(),
    ensures
        decompress_spec(rs.push(r), cs) == decompress_spec(rs, cs) + empty_run(r.skipped as int)
            + cs.skip(total_drawn(rs)).take(r.drawn as int),
    decreases rs.len(),
{
    if rs.len() == 0 {
        assert(rs.push(r)[0] == r);
        assert(rs.push(r).drop_first() =~= Seq::<RleRange>::empty());
        assert(cs.skip(0) =~= cs);
        assert(decompress_spec(Seq::<RleRange>::empty(), cs.skip(r.drawn as int))
            =~= Seq::<RgbVoxel>::empty());
        assert(decompress_spec(rs, cs) =~= Seq::<RgbVoxel>::empty());
        assert(decompress_spec(rs.push(r), cs) =~= decompress_spec(rs, cs) + empty_run(
            r.skipped as int,
        ) + cs.skip(total_drawn(rs)).take(r.drawn as int));
    } else {
        let h = rs[0];
        let t = rs.drop_first();
        lemma_total_drawn_nonneg(t);
        assert(rs.push(r)[0] == h);
        assert(rs.push(r).drop_first() =~= t.push(r));
        lemma_decompress_push(t, r, cs.skip(h.drawn as int));
        assert(cs.skip(h.drawn as int).skip(total_drawn(t)) =~= cs.skip(
            h.drawn + total_drawn(t),
        ));
        assert(decompress_spec(rs.push(r), cs) =~= decompress_spec(rs, cs) + empty_run(
            r.skipped as int,
        ) + cs.skip(total_drawn(rs)).take(r.drawn as int));
    }
}

/// Decompression only ever emits empty voxels and voxels from the
/// color list, so well-formedness carries over.
pub proof fn lemma_decompress_wf(rs: Seq<RleRange>, cs: Seq<RgbVoxel>)
    requires
        colors_wf(cs),
        total_drawn(rs) <= cs.len(),
    ensures
        colors_wf(decompress_spec(rs, cs)),
    decreases rs.len(),
{
    if rs.len() > 0 {
        let h = rs[0];
        let t = rs.drop_first();
        let d = h.drawn as int;
        lemma_total_drawn_nonneg(t);
        assert(colors_wf(cs.skip(d))) by {
            assert(forall|j: int| 0 <= j < cs.skip(d).len() ==> cs.skip(d)[j] == cs[j + d]);
        }
        lemma_decompress_wf(t, cs.skip(d));
        let out = decompress_spec(rs, cs);
        assert forall|j: int| 0 <= j < out.len() implies #[trigger] out[j].wf() by {
            let s = h.skipped as int;
            if j < s {
                assert(out[j] == RgbVoxel::empty_spec());
            } else if j < s + d {
                assert(out[j] == cs[j - s]);
            } else {
                assert(out[j] == decompress_spec(t, cs.skip(d))[j - s - d]);
            }
        }
    }
}

/// Two adjacent ranges can be coalesced either when the first draws
/// nothing and the combined skip still fits its field, or when the
/// second skips nothing and the combined drawn count still fits.
pub open spec fn can_merge(a: RleRange, b: RleRange) -> bool {
    (a.drawn == 0 && a.skipped + b.skipped < 1024) || (b.skipped == 0 && a.drawn + b.drawn < 64)
}

/// The coalesced range, preferring the skip-merging rule.
pub open spec fn merged(a: RleRange, b: RleRange) -> RleRange {
    if a.drawn == 0 && a.skipped + b.skipped < 1024 {
        RleRange { skipped: (a.skipped + b.skipped) as u16, drawn: b.drawn }
    } else {
        RleRange { skipped: a.skipped, drawn: (a.drawn + b.drawn) as u8 }
    }
}

/// Optimization with a pending range `prev`: keep coalescing `prev`
/// with the next range while a rule applies, otherwise emit it and go
/// on from the next range.
pub open spec fn optimize_from(prev: RleRange, rest: Seq<RleRange>) -> Seq<RleRange>
    decreases rest.len(),
{
    if rest.len() == 0 {
        seq![prev]
    } else if can_merge(prev, rest[0]) {
        optimize_from(merged(prev, rest[0]), rest.drop_first())
    } else {
        seq![prev] + optimize_from(rest[0], rest.drop_first())
    }
}

/// What optimizing a range list yields.
pub open spec fn optimize_spec(rs: Seq<RleRange>) -> Seq<RleRange> {
    if rs.len() == 0 {
        Seq::empty()
    } else {
        optimize_from(rs[0], rs.drop_first())
    }
}

/// No two adjacent ranges can be coalesced.
pub open spec fn normalized(rs: Seq<RleRange>) -> bool {
    forall|i: int| 0 <= i && i + 1 < rs.len() ==> !(#[trigger] can_merge(rs[i], rs[i + 1]))
}

/// Optimization yields a normalized list that draws as much as before,
/// and its first element merges with no range the pending one did not
/// merge with.
proof fn lemma_optimize_from_props(prev: RleRange, rest: Seq<RleRange>)
    requires
        prev.wf(),
        ranges_wf(rest),
    ensures
        optimize_from(prev, rest).len() >= 1,
        ranges_wf(optimize_from(prev, rest)),
        normalized(optimize_from(prev, rest)),
        total_drawn(optimize_from(prev, rest)) == prev.drawn + total_drawn(rest),
        forall|a: RleRange|
            a.wf() && !can_merge(a, prev) ==> !can_merge(a, #[trigger] optimize_from(prev, rest)[0]),
    decreases rest.len(),
{
    let out = optimize_from(prev, rest);
    if rest.len() == 0 {
        assert(out =~= seq![prev]);
        assert(out[0] == prev);
        assert(out.drop_first() =~= Seq::<RleRange>::empty());
        assert(total_drawn(Seq::<RleRange>::empty()) == 0);
    } else {
        let r0 = rest[0];
        let t = rest.drop_first();
        assert(r0.wf());
        assert(ranges_wf(t)) by {
            assert(forall|j: int| 0 <= j < t.len() ==> t[j] == rest[j + 1]);
        }
        if can_merge(prev, r0) {
            let m = merged(prev, r0);
            assert(m.wf());
            lemma_optimize_from_props(m, t);
            assert(m.drawn + total_drawn(t) == prev.drawn + total_drawn(rest));
            assert forall|a: RleRange| a.wf() && !can_merge(a, prev) implies !can_merge(
                a,
                #[trigger] optimize_from(prev, rest)[0],
            ) by {
                assert(m.skipped >= prev.skipped);
                assert(m.skipped == 0 ==> prev.skipped == 0);
                if prev.drawn == 0 && prev.skipped + r0.skipped < 1024 {
                    assert(m.skipped == 0 ==> a.drawn + prev.drawn < 64);
                } else {
                    assert(m.drawn >= prev.drawn);
                }
                assert(!can_merge(a, m));
            }
        } else {
            lemma_optimize_from_props(r0, t);
            let tail = optimize_from(r0, t);
            assert(out =~= seq![prev] + tail);
            assert(out[0] == prev);
            assert(!can_merge(prev, tail[0]));
            assert forall|i: int| 0 <= i && i + 1 < out.len() implies !(#[trigger] can_merge(
                out[i],
                out[i + 1],
            )) by {
                if i == 0 {
                    assert(out[1] == tail[0]);
                } else {
                    let j = i - 1;
                    assert(out[i] == tail[j]);
                    assert(out[i + 1] == tail[j + 1]);
                    assert(!can_merge(tail[j], tail[j + 1]));
                }
            }
            assert(ranges_wf(out)) by {
                assert(forall|i: int| 1 <= i < out.len() ==> out[i] == tail[i - 1]);
            }
            assert(out.drop_first() =~= tail);
            assert(total_drawn(out) == prev.drawn + total_drawn(tail));
        }
    }
}

/// Optimizing a normalized list changes nothing.
proof fn lemma_optimize_from_id(prev: RleRange, rest: Seq<RleRange>)
    requires
        normalized(seq![prev] + rest),
    ensures
        optimize_from(prev, rest) == seq![prev] + rest,
    decreases rest.len(),
{
    let cons = seq![prev] + rest;
    if rest.len() == 0 {
        assert(optimize_from(prev, rest) =~= cons);
    } else {
        assert(cons[0] == prev);
        assert(cons[1] == rest[0]);
        assert(!can_merge(prev, rest[0]));
        let t = rest.drop_first();
        assert(seq![rest[0]] + t =~= cons.drop_first());
        assert(normalized(seq![rest[0]] + t)) by {
            assert(forall|i: int|
                0 <= i < (seq![rest[0]] + t).len() ==> (seq![rest[0]] + t)[i] == cons[i + 1]);
        }
        lemma_optimize_from_id(rest[0], t);
        assert(optimize_from(prev, rest) =~= cons);
    }
}

/// Optimizing twice is the same as optimizing once.
pub proof fn lemma_optimize_idempotent(rs: Seq<RleRange>)
    requires
        ranges_wf(rs),
    ensures
        optimize_spec(optimize_spec(rs)) == optimize_spec(rs),
{
    if rs.len() == 0 {
        assert(optimize_spec(optimize_spec(rs)) =~= optimize_spec(rs));
    } else {
        assert(ranges_wf(rs.drop_first())) by {
            assert(forall|j: int|
                0 <= j < rs.drop_first().len() ==> rs.drop_first()[j] == rs[j + 1]);
        }
        lemma_optimize_from_props(rs[0], rs.drop_first());
        let o = optimize_spec(rs);
        assert(seq![o[0]] + o.drop_first() =~= o);
        lemma_optimize_from_id(o[0], o.drop_first());
    }
}

/// Coalescing preserves meaning: the optimized ranges decompress to the
/// same voxels, against any sufficient color list.
proof fn lemma_optimize_from_decompress(prev: RleRange, rest: Seq<RleRange>, cs: Seq<RgbVoxel>)
    requires
        prev.drawn + total_drawn(rest) <= cs.len(),
    ensures
        decompress_spec(optimize_from(prev, rest), cs) == decompress_spec(seq![prev] + rest, cs),
    decreases rest.len(),
{
    lemma_total_drawn_nonneg(rest);
    if rest.len() == 0 {
        assert(seq![prev] + rest =~= seq![prev]);
    } else {
        let r0 = rest[0];
        let t = rest.drop_first();
        lemma_total_drawn_nonneg(t);
        assert(total_drawn(rest) == r0.drawn + total_drawn(t));
        assert(rest =~= seq![r0] + t);
        lemma_decompress_cons(prev, rest, cs);
        lemma_decompress_cons(r0, t, cs.skip(prev.drawn as int));
        if can_merge(prev, r0) {
            let m = merged(prev, r0);
            lemma_decompress_cons(m, t, cs);
            if prev.drawn == 0 && prev.skipped + r0.skipped < 1024 {
                assert(cs.skip(0) =~= cs);
                assert(cs.take(0) =~= Seq::<RgbVoxel>::empty());
                assert(empty_run(m.skipped as int) =~= empty_run(prev.skipped as int) + empty_run(
                    r0.skipped as int,
                ));
                assert(decompress_spec(seq![m] + t, cs) =~= decompress_spec(seq![prev] + rest, cs));
            } else {
                let d1 = prev.drawn as int;
                let d2 = r0.drawn as int;
                assert(empty_run(0) =~= Seq::<RgbVoxel>::empty());
                assert(cs.skip(d1).skip(d2) =~= cs.skip(d1 + d2));
                assert(cs.take(d1) + cs.skip(d1).take(d2) =~= cs.take(d1 + d2));
                assert(decompress_spec(seq![m] + t, cs) =~= decompress_spec(seq![prev] + rest, cs));
            }
            lemma_optimize_from_decompress(m, t, cs);
        } else {
            lemma_optimize_from_decompress(r0, t, cs.skip(prev.drawn as int));
            let tail = optimize_from(r0, t);
            lemma_decompress_cons(prev, tail, cs);
            assert(decompress_spec(optimize_from(prev, rest), cs) =~= decompress_spec(
                seq![prev] + rest,
                cs,
            ));
        }
    }
}

/// Optimization is decompression-preserving: against any sufficient
/// color list, the optimized ranges decompress to the same voxels.
pub proof fn lemma_optimize_decompress(rs: Seq<RleRange>, cs: Seq<RgbVoxel>)
    requires
        total_drawn(rs) <= cs.len(),
    ensures
        decompress_spec(optimize_spec(rs), cs) == decompress_spec(rs, cs),
{
    if rs.len() > 0 {
        assert(seq![rs[0]] + rs.drop_first() =~= rs);
        lemma_optimize_from_decompress(rs[0], rs.drop_first(), cs);
    }
}

/// Compression then decompression gives back the input, for every
/// machine state: `skipped` and `drawn` count a pending run, and `cp`
/// holds the colors of the pending drawn voxels.
proof fn lemma_compress_decompress_from(
    v: Seq<RgbVoxel>,
    skipped: int,
    drawn: int,
    cp: Seq<RgbVoxel>,
)
    requires
        0 <= skipped <= 1023,
        0 <= drawn <= 63,
        cp.len() == drawn,
    ensures
        decompress_spec(compress_ranges(v, skipped, drawn), cp + drawn_colors(v)) == empty_run(
            skipped,
        ) + cp + v,
    decreases v.len(),
{
    if v.len() == 0 {
        assert(drawn_colors(v) =~= Seq::<RgbVoxel>::empty());
        assert(cp + drawn_colors(v) =~= cp);
        if skipped > 0 || drawn > 0 {
            let r = RleRange { skipped: skipped as u16, drawn: drawn as u8 };
            assert(compress_ranges(v, skipped, drawn) =~= seq![r] + Seq::<RleRange>::empty());
            lemma_decompress_cons(r, Seq::<RleRange>::empty(), cp);
            assert(cp.take(drawn) =~= cp);
            assert(decompress_spec(compress_ranges(v, skipped, drawn), cp + drawn_colors(v))
                =~= empty_run(skipped) + cp + v);
        } else {
            assert(decompress_spec(compress_ranges(v, skipped, drawn), cp + drawn_colors(v))
                =~= empty_run(skipped) + cp + v);
        }
    } else {
        let c = v[0];
        let rest = v.drop_first();
        assert(v =~= seq![c] + rest);
        let cv = cp + drawn_colors(v);
        if c == RgbVoxel::empty_spec() {
            assert(drawn_colors(v) == drawn_colors(rest));
        } else {
            assert(drawn_colors(v) == seq![c] + drawn_colors(rest));
        }
        if drawn == 0 {
            assert(cp =~= Seq::<RgbVoxel>::empty());
            if skipped == 1023 {
                let r = RleRange { skipped: 1023, drawn: 0 };
                if c == RgbVoxel::empty_spec() {
                    assert(cv =~= drawn_colors(rest));
                    lemma_decompress_cons(r, compress_ranges(rest, 1, 0), cv);
                    lemma_compress_decompress_from(rest, 1, 0, Seq::<RgbVoxel>::empty());
                    assert(Seq::<RgbVoxel>::empty() + drawn_colors(rest) =~= drawn_colors(rest));
                    assert(cv.skip(0) =~= cv);
                    assert(decompress_spec(compress_ranges(v, skipped, drawn), cv) =~= empty_run(
                        skipped,
                    ) + cp + v);
                } else {
                    assert(cv =~= seq![c] + drawn_colors(rest));
                    lemma_decompress_cons(r, compress_ranges(rest, 0, 1), cv);
                    lemma_compress_decompress_from(rest, 0, 1, seq![c]);
                    assert(cv.skip(0) =~= cv);
                    assert(decompress_spec(compress_ranges(v, skipped, drawn), cv) =~= empty_run(
                        skipped,
                    ) + cp + v);
                }
            } else if c == RgbVoxel::empty_spec() {
                assert(cv =~= drawn_colors(rest));
                lemma_compress_decompress_from(rest, skipped + 1, 0, Seq::<RgbVoxel>::empty());
                assert(Seq::<RgbVoxel>::empty() + drawn_colors(rest) =~= drawn_colors(rest));
                assert(decompress_spec(compress_ranges(v, skipped, drawn), cv) =~= empty_run(
                    skipped,
                ) + cp + v);
            } else {
                assert(cv =~= seq![c] + drawn_colors(rest));
                lemma_compress_decompress_from(rest, skipped, 1, seq![c]);
                assert(decompress_spec(compress_ranges(v, skipped, drawn), cv) =~= empty_run(
                    skipped,
                ) + cp + v);
            }
        } else {
            if drawn == 63 {
                let r = RleRange { skipped: skipped as u16, drawn: 63 };
                if c == RgbVoxel::empty_spec() {
                    assert(cv =~= cp + drawn_colors(rest));
                    lemma_decompress_cons(r, compress_ranges(rest, 1, 0), cv);
                    lemma_compress_decompress_from(rest, 1, 0, Seq::<RgbVoxel>::empty());
                    assert(cv.take(63) =~= cp);
                    assert(cv.skip(63) =~= drawn_colors(rest));
                    assert(Seq::<RgbVoxel>::empty() + drawn_colors(rest) =~= drawn_colors(rest));
                    assert(decompress_spec(compress_ranges(v, skipped, drawn), cv) =~= empty_run(
                        skipped,
                    ) + cp + v);
                } else {
                    lemma_decompress_cons(r, compress_ranges(rest, 0, 1), cv);
                    lemma_compress_decompress_from(rest, 0, 1, seq![c]);
                    assert(cv.take(63) =~= cp);
                    assert(cv.skip(63) =~= seq![c] + drawn_colors(rest));
                    assert(decompress_spec(compress_ranges(v, skipped, drawn), cv) =~= empty_run(
                        skipped,
                    ) + cp + v);
                }
            } else if c == RgbVoxel::empty_spec() {
                let r = RleRange { skipped: skipped as u16, drawn: drawn as u8 };
                assert(cv =~= cp + drawn_colors(rest));
                lemma_decompress_cons(r, compress_ranges(rest, 1, 0), cv);
                lemma_compress_decompress_from(rest, 1, 0, Seq::<RgbVoxel>::empty());
                assert(cv.take(drawn) =~= cp);
                assert(cv.skip(drawn) =~= drawn_colors(rest));
                assert(Seq::<RgbVoxel>::empty() + drawn_colors(rest) =~= drawn_colors(rest));
                assert(decompress_spec(compress_ranges(v, skipped, drawn), cv) =~= empty_run(
                    skipped,
                ) + cp + v);
            } else {
                lemma_compress_decompress_from(rest, skipped, drawn + 1, cp.push(c));
                assert(cp.push(c) + drawn_colors(rest) =~= cv);
                assert(empty_run(skipped) + cp.push(c) + rest =~= empty_run(skipped) + cp + v);
                assert(decompress_spec(compress_ranges(v, skipped, drawn), cv) =~= empty_run(
                    skipped,
                ) + cp + v);
            }
        }
    }
}

/// Unfolding of `total_drawn` on a list with an explicit head.
proof fn lemma_total_drawn_cons(r: RleRange, t: Seq<RleRange>)
    ensures
        total_drawn(seq![r] + t) == r.drawn + total_drawn(t),
{
    assert((seq![r] + t)[0] == r);
    assert((seq![r] + t).drop_first() =~= t);
}

/// There are never more drawn colors than voxels.
pub proof fn lemma_drawn_colors_len(v: Seq<RgbVoxel>)
    ensures
        drawn_colors(v).len() <= v.len(),
    decreases v.len(),
{
    if v.len() > 0 {
        lemma_drawn_colors_len(v.drop_first());
    }
}

/// The drawn colors of a well-formed column are themselves well formed.
pub proof fn lemma_drawn_colors_wf(v: Seq<RgbVoxel>)
    requires
        colors_wf(v),
    ensures
        colors_wf(drawn_colors(v)),
    decreases v.len(),
{
    if v.len() > 0 {
        let t = v.drop_first();
        assert(colors_wf(t)) by {
            assert(forall|j: int| 0 <= j < t.len() ==> t[j] == v[j + 1]);
        }
        lemma_drawn_colors_wf(t);
        if v[0] == RgbVoxel::empty_spec() {
        } else {
            let out = seq![v[0]] + drawn_colors(t);
            assert(colors_wf(out)) by {
                assert(forall|j: int| 1 <= j < out.len() ==> out[j] == drawn_colors(t)[j - 1]);
                assert(out[0] == v[0]);
            }
        }
    }
}

/// Every range that compression emits fits its bit fields.
pub proof fn lemma_compress_ranges_wf(v: Seq<RgbVoxel>, skipped: int, drawn: int)
    requires
        0 <= skipped <= 1023,
        0 <= drawn <= 63,
    ensures
        ranges_wf(compress_ranges(v, skipped, drawn)),
    decreases v.len(),
{
    let out = compress_ranges(v, skipped, drawn);
    if v.len() == 0 {
    } else {
        let c = v[0];
        let rest = v.drop_first();
        if drawn == 0 {
            if skipped == 1023 {
                let tail = if c == RgbVoxel::empty_spec() {
                    compress_ranges(rest, 1, 0)
                } else {
                    compress_ranges(rest, 0, 1)
                };
                if c == RgbVoxel::empty_spec() {
                    lemma_compress_ranges_wf(rest, 1, 0);
                } else {
                    lemma_compress_ranges_wf(rest, 0, 1);
                }
                assert(ranges_wf(out)) by {
                    assert(forall|j: int| 1 <= j < out.len() ==> out[j] == tail[j - 1]);
                }
            } else if c == RgbVoxel::empty_spec() {
                lemma_compress_ranges_wf(rest, skipped + 1, 0);
            } else {
                lemma_compress_ranges_wf(rest, skipped, 1);
            }
        } else {
            if drawn == 63 {
                let tail = if c == RgbVoxel::empty_spec() {
                    compress_ranges(rest, 1, 0)
                } else {
                    compress_ranges(rest, 0, 1)
                };
                if c == RgbVoxel::empty_spec() {
                    lemma_compress_ranges_wf(rest, 1, 0);
                } else {
                    lemma_compress_ranges_wf(rest, 0, 1);
                }
                assert(ranges_wf(out)) by {
                    assert(forall|j: int| 1 <= j < out.len() ==> out[j] == tail[j - 1]);
                }
            } else if c == RgbVoxel::empty_spec() {
                let tail = compress_ranges(rest, 1, 0);
                lemma_compress_ranges_wf(rest, 1, 0);
                assert(ranges_wf(out)) by {
                    assert(forall|j: int| 1 <= j < out.len() ==> out[j] == tail[j - 1]);
                }
            } else {
                lemma_compress_ranges_wf(rest, skipped, drawn + 1);
            }
        }
    }
}

/// Compression emits at most one range more than there are voxels.
pub proof fn lemma_compress_ranges_len(v: Seq<RgbVoxel>, skipped: int, drawn: int)
    ensures
        compress_ranges(v, skipped, drawn).len() <= v.len() + 1,
    decreases v.len(),
{
    if v.len() > 0 {
        let c = v[0];
        let rest = v.drop_first();
        lemma_compress_ranges_len(rest, 1, 0);
        lemma_compress_ranges_len(rest, 0, 1);
        lemma_compress_ranges_len(rest, skipped + 1, 0);
        lemma_compress_ranges_len(rest, skipped, 1);
        lemma_compress_ranges_len(rest, skipped, drawn + 1);
    }
}

/// The ranges that compression emits draw exactly the pending count plus
/// the input's non-empty voxels.
pub proof fn lemma_compress_total_drawn(v: Seq<RgbVoxel>, skipped: int, drawn: int)
    requires
        0 <= skipped <= 1023,
        0 <= drawn <= 63,
    ensures
        total_drawn(compress_ranges(v, skipped, drawn)) == drawn + drawn_colors(v).len(),
    decreases v.len(),
{
    if v.len() == 0 {
        if skipped > 0 || drawn > 0 {
            let r = RleRange { skipped: skipped as u16, drawn: drawn as u8 };
            assert(compress_ranges(v, skipped, drawn) =~= seq![r] + Seq::<RleRange>::empty());
            lemma_total_drawn_cons(r, Seq::<RleRange>::empty());
            assert(total_drawn(Seq::<RleRange>::empty()) == 0);
        }
    } else {
        let c = v[0];
        let rest = v.drop_first();
        if c == RgbVoxel::empty_spec() {
            assert(drawn_colors(v) == drawn_colors(rest));
        } else {
            assert(drawn_colors(v) == seq![c] + drawn_colors(rest));
            assert(drawn_colors(v).len() == 1 + drawn_colors(rest).len());
        }
        if drawn == 0 {
            if skipped == 1023 {
                let r = RleRange { skipped: 1023, drawn: 0 };
                if c == RgbVoxel::empty_spec() {
                    lemma_compress_total_drawn(rest, 1, 0);
                    lemma_total_drawn_cons(r, compress_ranges(rest, 1, 0));
                } else {
                    lemma_compress_total_drawn(rest, 0, 1);
                    lemma_total_drawn_cons(r, compress_ranges(rest, 0, 1));
                }
            } else if c == RgbVoxel::empty_spec() {
                lemma_compress_total_drawn(rest, skipped + 1, 0);
            } else {
                lemma_compress_total_drawn(rest, skipped, 1);
            }
        } else {
            if drawn == 63 {
                let r = RleRange { skipped: skipped as u16, drawn: 63 };
                if c == RgbVoxel::empty_spec() {
                    lemma_compress_total_drawn(rest, 1, 0);
                    lemma_total_drawn_cons(r, compress_ranges(rest, 1, 0));
                } else {
                    lemma_compress_total_drawn(rest, 0, 1);
                    lemma_total_drawn_cons(r, compress_ranges(rest, 0, 1));
                }
            } else if c == RgbVoxel::empty_spec() {
                let r = RleRange { skipped: skipped as u16, drawn: drawn as u8 };
                lemma_compress_total_drawn(rest, 1, 0);
                lemma_total_drawn_cons(r, compress_ranges(rest, 1, 0));
            } else {
                lemma_compress_total_drawn(rest, skipped, drawn + 1);
            }
        }
    }
}

/// Round trip: decompressing a compressed column yields the original
/// voxel sequence, for every finite voxel sequence.
pub proof fn lemma_compress_roundtrip(v: Seq<RgbVoxel>)
    ensures
        decompress_spec(compress_ranges(v, 0, 0), drawn_colors(v)) == v,
{
    lemma_compress_decompress_from(v, 0, 0, Seq::<RgbVoxel>::empty());
    assert(Seq::<RgbVoxel>::empty() + drawn_colors(v) =~= drawn_colors(v));
    assert(empty_run(0) + Seq::<RgbVoxel>::empty() + v =~= v);
}

impl RleColumn {
    /// Compact one voxel column into run-length form.  The result's
    /// ranges follow the overflow-splitting state machine exactly, and
    /// its colors are the non-empty voxels of the input, in order.
    pub fn compress(array: &[RgbVoxel]) -> (r: RleColumn)
        ensures
            r.ranges@ == compress_ranges(array@, 0, 0),
            r.colors@ == drawn_colors(array@),
    {
        let mut ranges: Vec<RleRange> = Vec::new();
        let mut colors: Vec<RgbVoxel> = Vec::new();
        let mut skipped: u16 = 0;
        let mut drawn: u8 = 0;
        let n: usize = array.len();
        let mut i: usize = 0;
        proof {
            assert(array@.skip(0) =~= array@);
            assert(array@.take(0) =~= Seq::<RgbVoxel>::empty());
            assert(Seq::<RleRange>::empty() + compress_ranges(array@, 0, 0) =~= compress_ranges(
                array@,
                0,
                0,
            ));
        }
        while i < n
            invariant
                n == array@.len(),
                i <= n,
                skipped <= 1023,
                drawn <= 63,
                compress_ranges(array@, 0, 0) == ranges@ + compress_ranges(
                    array@.skip(i as int),
                    skipped as int,
                    drawn as int,
                ),
                colors@ == drawn_colors(array@.take(i as int)),
            decreases n - i,
        {
            let c = array[i];
            proof {
                assert(array@.skip(i as int)[0] == array@[i as int]);
                assert(array@.skip(i as int).drop_first() =~= array@.skip(i as int + 1));
                assert(array@.take(i as int + 1) =~= array@.take(i as int).push(array@[i as int]));
                lemma_drawn_colors_push(array@.take(i as int), array@[i as int]);
            }
            let ghost ranges0 = ranges@;
            let ghost rest = array@.skip(i as int + 1);
            if drawn == 0 {
                if skipped == 1023 {
                    ranges.push(RleRange { skipped: 1023, drawn: 0 });
                    skipped = 0;
                    proof {
                        let tail = if array@[i as int] == RgbVoxel::empty_spec() {
                            compress_ranges(rest, 1, 0)
                        } else {
                            compress_ranges(rest, 0, 1)
                        };
                        assert(ranges0 + (seq![RleRange { skipped: 1023, drawn: 0 }] + tail)
                            =~= (ranges0 + seq![RleRange { skipped: 1023, drawn: 0 }]) + tail);
                        assert(ranges@ =~= ranges0 + seq![RleRange { skipped: 1023, drawn: 0 }]);
                    }
                }
                if c.is_empty() {
                    skipped = skipped + 1;
                } else {
                    drawn = 1;
                    colors.push(c);
                }
            } else {
                if drawn == 63 {
                    let flushed = RleRange { skipped, drawn: 63 };
                    ranges.push(flushed);
                    skipped = 0;
                    drawn = 0;
                    proof {
                        let tail = if array@[i as int] == RgbVoxel::empty_spec() {
                            compress_ranges(rest, 1, 0)
                        } else {
                            compress_ranges(rest, 0, 1)
                        };
                        assert(ranges0 + (seq![flushed] + tail) =~= (ranges0 + seq![flushed])
                            + tail);
                        assert(ranges@ =~= ranges0 + seq![flushed]);
                    }
                    if c.is_empty() {
                        skipped = 1;
                    } else {
                        drawn = 1;
                        colors.push(c);
                    }
                } else if c.is_empty() {
                    let flushed = RleRange { skipped, drawn };
                    ranges.push(flushed);
                    skipped = 1;
                    drawn = 0;
                    proof {
                        let tail = compress_ranges(rest, 1, 0);
                        assert(ranges0 + (seq![flushed] + tail) =~= (ranges0 + seq![flushed])
                            + tail);
                        assert(ranges@ =~= ranges0 + seq![flushed]);
                    }
                } else {
                    drawn = drawn + 1;
                    colors.push(c);
                }
            }
            i = i + 1;
        }
        proof {
            assert(array@.skip(n as int) =~= Seq::<RgbVoxel>::empty());
            assert(array@.take(n as int) =~= array@);
        }
        if drawn > 0 || skipped > 0 {
            let flushed = RleRange { skipped, drawn };
            ranges.push(flushed);
            proof {
                assert(compress_ranges(Seq::<RgbVoxel>::empty(), skipped as int, drawn as int)
                    =~= seq![flushed]);
                assert(ranges@ =~= compress_ranges(array@, 0, 0));
            }
        } else {
            proof {
                assert(ranges@ + compress_ranges(Seq::<RgbVoxel>::empty(), 0, 0) =~= ranges@);
            }
        }
        RleColumn { ranges, colors }
    }

    /// Replay the ranges in order into a flat voxel column: each range
    /// emits its skipped empty voxels, then its drawn voxels pulled
    /// sequentially from the color list by one running cursor.
    #[verifier::loop_isolation(false)]
    pub fn decompress(&self) -> (r: Vec<RgbVoxel>)
        requires
            total_drawn(self.ranges@) <= self.colors@.len(),
        ensures
            r@ == decompress_spec(self.ranges@, self.colors@),
    {
        let mut voxels: Vec<RgbVoxel> = Vec::new();
        let mut col_offset: usize = 0;
        let nr: usize = self.ranges.len();
        let nc: usize = self.colors.len();
        let mut i: usize = 0;
        proof {
            assert(self.ranges@.take(0) =~= Seq::<RleRange>::empty());
            assert(total_drawn(Seq::<RleRange>::empty()) == 0);
            assert(decompress_spec(Seq::<RleRange>::empty(), self.colors@)
                =~= Seq::<RgbVoxel>::empty());
        }
        while i < nr
            invariant
                i <= nr,
                col_offset == total_drawn(self.ranges@.take(i as int)),
                col_offset <= self.colors@.len(),
                voxels@ == decompress_spec(self.ranges@.take(i as int), self.colors@),
            decreases nr - i,
        {
            let rg = self.ranges[i];
            proof {
                lemma_total_drawn_split(self.ranges@, i as int + 1);
                lemma_total_drawn_nonneg(self.ranges@.skip(i as int + 1));
                assert(self.ranges@.take(i as int + 1) =~= self.ranges@.take(i as int).push(rg));
                lemma_total_drawn_push(self.ranges@.take(i as int), rg);
                lemma_decompress_push(self.ranges@.take(i as int), rg, self.colors@);
            }
            let ghost base = voxels@;
            let mut j: u16 = 0;
            while j < rg.skipped
                invariant
                    j <= rg.skipped,
                    voxels@ == base + empty_run(j as int),
                decreases rg.skipped - j,
            {
                voxels.push(RgbVoxel::empty());
                j = j + 1;
                proof {
                    assert(voxels@ =~= base + empty_run(j as int));
                }
            }
            let ghost base2 = voxels@;
            let ghost start = col_offset as int;
            let mut k: u8 = 0;
            while k < rg.drawn
                invariant
                    k <= rg.drawn,
                    start + rg.drawn <= self.colors@.len(),
                    col_offset == start + k,
                    voxels@ == base2 + self.colors@.subrange(start, start + k),
                decreases rg.drawn - k,
            {
                voxels.push(self.colors[col_offset]);
                col_offset = col_offset + 1;
                k = k + 1;
                proof {
                    assert(voxels@ =~= base2 + self.colors@.subrange(start, start + k));
                }
            }
            i = i + 1;
            proof {
                assert(self.colors@.skip(start).take(rg.drawn as int) =~= self.colors@.subrange(
                    start,
                    start + rg.drawn,
                ));
                assert(voxels@ =~= decompress_spec(self.ranges@.take(i as int), self.colors@));
            }
        }
        proof {
            assert(self.ranges@.take(nr as int) =~= self.ranges@);
        }
        voxels
    }

    /// Number of bytes the column occupies once packed: two per range
    /// and two per color.
    pub fn memory_size(&self) -> (r: usize)
        requires
            2 * self.ranges@.len() + 2 * self.colors@.len() <= usize::MAX,
        ensures
            r == 2 * self.ranges@.len() + 2 * self.colors@.len(),
    {
        self.ranges.len() * crate::range::RLE_RANGE_SIZE + self.colors.len()
            * crate::voxel::RGB_VOXEL_SIZE
    }

    /// Split off the first range.  The color list stays with the rest of
    /// the column: the head's colors are re-consumed when head and
    /// remainder are reunited for decompression.  An empty column has no
    /// head.
    pub fn split_head(self) -> (r: Option<(RleRange, RleColumn)>)
        ensures
            match r {
                None => self.ranges@.len() == 0,
                Some(p) => {
                    &&& self.ranges@.len() > 0
                    &&& p.0 == self.ranges@[0]
                    &&& p.1.ranges@ == self.ranges@.drop_first()
                    &&& p.1.colors@ == self.colors@
                },
            },
    {
        if self.ranges.len() == 0 {
            return None;
        }
        let mut ranges = self.ranges;
        let first = ranges.remove(0);
        Some((first, RleColumn { ranges, colors: self.colors }))
    }

    /// Number of run-length ranges in the column.
    pub fn intervals_count(&self) -> (r: usize)
        ensures
            r == self.ranges@.len(),
    {
        self.ranges.len()
    }

    /// Coalesce adjacent ranges without violating the bit-width caps:
    /// a range that draws nothing donates its skip to the next range
    /// while the sum stays below 1024, and a range that skips nothing
    /// donates its drawn count to the previous one while the sum stays
    /// below 64.  The color list is untouched.
    #[verifier::loop_isolation(false)]
    pub fn optimize(self) -> (r: RleColumn)
        ensures
            r.ranges@ == optimize_spec(self.ranges@),
            r.colors@ == self.colors@,
    {
        let mut new_ranges: Vec<RleRange> = Vec::new();
        let nr: usize = self.ranges.len();
        if nr == 0 {
            proof {
                assert(optimize_spec(self.ranges@) =~= Seq::<RleRange>::empty());
            }
            return RleColumn { ranges: new_ranges, colors: self.colors };
        }
        let mut prev: RleRange = self.ranges[0];
        let mut i: usize = 1;
        proof {
            assert(self.ranges@.drop_first() =~= self.ranges@.skip(1));
            assert(Seq::<RleRange>::empty() + optimize_from(prev, self.ranges@.skip(1))
                =~= optimize_from(prev, self.ranges@.skip(1)));
        }
        while i < nr
            invariant
                1 <= i <= nr,
                optimize_spec(self.ranges@) == new_ranges@ + optimize_from(
                    prev,
                    self.ranges@.skip(i as int),
                ),
            decreases nr - i,
        {
            let rg = self.ranges[i];
            proof {
                assert(self.ranges@.skip(i as int)[0] == self.ranges@[i as int]);
                assert(self.ranges@.skip(i as int).drop_first() =~= self.ranges@.skip(
                    i as int + 1,
                ));
            }
            let s_sum: u32 = prev.skipped as u32 + rg.skipped as u32;
            let d_sum: u32 = prev.drawn as u32 + rg.drawn as u32;
            if prev.drawn == 0 && s_sum < 1024 {
                prev = RleRange { skipped: s_sum as u16, drawn: rg.drawn };
            } else if rg.skipped == 0 && d_sum < 64 {
                prev = RleRange { skipped: prev.skipped, drawn: d_sum as u8 };
            } else {
                let ghost emitted = new_ranges@;
                new_ranges.push(prev);
                proof {
                    let tail = optimize_from(rg, self.ranges@.skip(i as int + 1));
                    assert(emitted + (seq![prev] + tail) =~= (emitted + seq![prev]) + tail);
                    assert(new_ranges@ =~= emitted + seq![prev]);
                }
                prev = rg;
            }
            i = i + 1;
        }
        proof {
            assert(self.ranges@.skip(nr as int) =~= Seq::<RleRange>::empty());
        }
        let ghost emitted = new_ranges@;
        new_ranges.push(prev);
        proof {
            assert(new_ranges@ =~= emitted + seq![prev]);
        }
        RleColumn { ranges: new_ranges, colors: self.colors }
    }

    /// Write the column's packed bytes into `mem` starting at `offset`:
    /// every range's two-byte pattern, then every color's.  Returns the
    /// number of bytes written; nothing outside the written window
    /// changes.
    #[verifier::loop_isolation(false)]
    pub fn pack_into(&self, mem: &mut Vec<u8>, offset: usize) -> (r: usize)
        requires
            ranges_wf(self.ranges@),
            colors_wf(self.colors@),
            offset + 2 * self.ranges@.len() + 2 * self.colors@.len() <= old(mem)@.len(),
        ensures
            r == 2 * self.ranges@.len() + 2 * self.colors@.len(),
            final(mem)@.len() == old(mem)@.len(),
            final(mem)@.subrange(offset as int, offset + r) == packed_bytes(
                self.ranges@,
                self.colors@,
            ),
            final(mem)@.subrange(0, offset as int) == old(mem)@.subrange(0, offset as int),
            final(mem)@.skip(offset + r) == old(mem)@.skip(offset + r),
    {
        let ml: usize = mem.len();
        let nr: usize = self.ranges.len();
        let nc: usize = self.colors.len();
        let mut i: usize = 0;
        while i < nr
            invariant
                i <= nr,
                mem@.len() == old(mem)@.len(),
                forall|j: int| 0 <= j < 2 * i ==> mem@[offset + j] == ranges_bytes(self.ranges@)[j],
                forall|j: int| 0 <= j < offset ==> mem@[j] == old(mem)@[j],
                forall|j: int| offset + 2 * i <= j < mem@.len() ==> mem@[j] == old(mem)@[j],
            decreases nr - i,
        {
            let rb = self.ranges[i].into_bytes();
            mem[offset + 2 * i] = rb[0];
            mem[offset + 2 * i + 1] = rb[1];
            i = i + 1;
        }
        let base: usize = offset + 2 * nr;
        let mut k: usize = 0;
        while k < nc
            invariant
                k <= nc,
                mem@.len() == old(mem)@.len(),
                forall|j: int| 0 <= j < 2 * nr ==> mem@[offset + j] == ranges_bytes(
                    self.ranges@,
                )[j],
                forall|j: int| 0 <= j < 2 * k ==> mem@[base + j] == voxels_bytes(self.colors@)[j],
                forall|j: int| 0 <= j < offset ==> mem@[j] == old(mem)@[j],
                forall|j: int| base + 2 * k <= j < mem@.len() ==> mem@[j] == old(mem)@[j],
            decreases nc - k,
        {
            let cb = self.colors[k].into_bytes();
            mem[base + 2 * k] = cb[0];
            mem[base + 2 * k + 1] = cb[1];
            k = k + 1;
        }
        proof {
            assert(mem@.subrange(offset as int, offset + 2 * nr + 2 * nc) =~= packed_bytes(
                self.ranges@,
                self.colors@,
            ));
            assert(mem@.subrange(0, offset as int) =~= old(mem)@.subrange(0, offset as int));
            assert(mem@.skip(offset + 2 * nr + 2 * nc) =~= old(mem)@.skip(
                offset + 2 * nr + 2 * nc,
            ));
        }
        nr * 2 + nc * 2
    }

    /// Rebuild a column from `rle_count` packed ranges at `offset` in
    /// `mem`, prepending the externally cached first range if one is
    /// given, then reading as many packed colors as the ranges draw.
    #[verifier::loop_isolation(false)]
    pub fn unpack_from(
        mem: &Vec<u8>,
        offset: usize,
        rle_count: usize,
        first_range: Option<RleRange>,
    ) -> (r: RleColumn)
        requires
            first_range matches Some(fr) ==> fr.wf(),
            offset + 2 * rle_count <= mem@.len(),
            offset + 2 * rle_count + 2 * total_drawn(
                first_seq(first_range) + decoded_ranges(mem@, offset as int, rle_count as int),
            ) <= mem@.len(),
        ensures
            r.ranges@ == first_seq(first_range) + decoded_ranges(
                mem@,
                offset as int,
                rle_count as int,
            ),
            r.colors@ == decoded_voxels(
                mem@,
                offset + 2 * rle_count,
                total_drawn(r.ranges@),
            ),
            r.colors@.len() == total_drawn(r.ranges@),
            ranges_wf(r.ranges@),
            colors_wf(r.colors@),
    {
        let ml: usize = mem.len();
        let ghost all = first_seq(first_range) + decoded_ranges(
            mem@,
            offset as int,
            rle_count as int,
        );
        let mut ranges: Vec<RleRange> = Vec::new();
        let mut drawn: usize = 0;
        let ghost fl: int = first_seq(first_range).len() as int;
        match first_range {
            None => {},
            Some(fr) => {
                ranges.push(fr);
                drawn = fr.drawn as usize;
            },
        }
        proof {
            assert(decoded_ranges(mem@, offset as int, 0) =~= Seq::<RleRange>::empty());
            assert(ranges@ =~= all.take(fl));
            if first_range is Some {
                assert(all.take(fl) =~= Seq::<RleRange>::empty().push(all[0]));
                lemma_total_drawn_push(Seq::<RleRange>::empty(), all[0]);
                assert(total_drawn(Seq::<RleRange>::empty()) == 0);
            } else {
                assert(total_drawn(all.take(fl)) == 0);
            }
            lemma_total_drawn_split(all, fl);
            lemma_total_drawn_nonneg(all.skip(fl));
            lemma_total_drawn_nonneg(all.take(fl));
        }
        let mut i: usize = 0;
        while i < rle_count
            invariant
                i <= rle_count,
                ranges@ == all.take(fl + i),
                drawn == total_drawn(all.take(fl + i)),
                drawn <= total_drawn(all),
            decreases rle_count - i,
        {
            let b0 = mem[offset + 2 * i];
            let b1 = mem[offset + 2 * i + 1];
            let rg = RleRange::from_bytes([b0, b1]);
            proof {
                assert(all[fl + i] == decoded_ranges(
                    mem@,
                    offset as int,
                    rle_count as int,
                )[i as int]);
                assert(rg == all[fl + i]);
                assert(all.take(fl + i + 1) =~= all.take(fl + i).push(rg));
                lemma_total_drawn_push(all.take(fl + i), rg);
                lemma_total_drawn_split(all, fl + i + 1);
                lemma_total_drawn_nonneg(all.skip(fl + i + 1));
            }
            drawn = drawn + rg.drawn as usize;
            ranges.push(rg);
            i = i + 1;
        }
        proof {
            assert(all.take(fl + rle_count) =~= all);
        }
        let base: usize = offset + 2 * rle_count;
        let mut colors: Vec<RgbVoxel> = Vec::new();
        let mut k: usize = 0;
        proof {
            assert(decoded_voxels(mem@, base as int, 0) =~= Seq::<RgbVoxel>::empty());
        }
        while k < drawn
            invariant
                k <= drawn,
                colors@ == decoded_voxels(mem@, base as int, k as int),
            decreases drawn - k,
        {
            let b0 = mem[base + 2 * k];
            let b1 = mem[base + 2 * k + 1];
            let c = RgbVoxel::from_bytes([b0, b1]);
            colors.push(c);
            k = k + 1;
            proof {
                assert(colors@ =~= decoded_voxels(mem@, base as int, k as int));
            }
        }
        let r = RleColumn { ranges, colors };
        proof {
            assert(colors_wf(r.colors@)) by {
                assert forall|j: int| 0 <= j < r.colors@.len() implies #[trigger] r.colors@[j].wf()
                    by {
                    assert(r.colors@[j] == RgbVoxel::of_word(
                        mem@[base + 2 * j] + mem@[base + 2 * j + 1] * 256,
                    ));
                }
            }
            assert(ranges_wf(r.ranges@)) by {
                assert forall|j: int| 0 <= j < r.ranges@.len() implies #[trigger] r.ranges@[j].wf()
                    by {
                    if j >= fl {
                        assert(r.ranges@[j] == RleRange::of_word(
                            mem@[offset + 2 * (j - fl)] + mem@[offset + 2 * (j - fl) + 1] * 256,
                        ));
                    }
                }
            }
        }
        r
    }
}

} // verus!
