//! Result rendering: from a merged aggregate map to the report line.
//!
//! Entries are ordered by key, ascending and lexicographic over bytes, and
//! each is written as `key=min/mean/max` with exactly one decimal digit,
//! the mean being the sum over the count rounded half to even. The whole
//! report is `Result: ` followed by the entries joined with `, `, and the
//! contract pins it down byte for byte.

use vstd::prelude::*;
use vstd::arithmetic::div_mod::{
    lemma_div_is_ordered, lemma_div_multiples_vanish, lemma_fundamental_div_mod,
};

use crate::aggmap::{lemma_entries_model_props, lemma_wf_entries_model, AggregateMap};
use crate::stats::{SStats, Stats};
use crate::value::{DOT, MAX_ABS_TENTHS, MINUS};

verus! {

pub const EQUALS: u8 = 61;
pub const SLASH: u8 = 47;
pub const COMMA: u8 = 44;
pub const SPACE: u8 = 32;

/// Strict lexicographic order on byte strings, a proper prefix first.
pub open spec fn lex_lt(a: Seq<u8>, b: Seq<u8>) -> bool
    decreases a.len(),
{
    if b.len() == 0 {
        false
    } else if a.len() == 0 {
        true
    } else if a[0] < b[0] {
        true
    } else if a[0] > b[0] {
        false
    } else {
        lex_lt(a.subrange(1, a.len() as int), b.subrange(1, b.len() as int))
    }
}

/// Two byte strings neither of which precedes the other are equal: the
/// order is connected, so sorting by it pins the order completely.
pub proof fn lemma_lex_connected(a: Seq<u8>, b: Seq<u8>)
    requires
        !lex_lt(a, b),
        !lex_lt(b, a),
    ensures
        a == b,
    decreases a.len(),
{
    if a.len() == 0 && b.len() == 0 {
        assert(a =~= b);
    } else if a.len() > 0 && b.len() > 0 {
        assert(a[0] == b[0]);
        let at = a.subrange(1, a.len() as int);
        let bt = b.subrange(1, b.len() as int);
        lemma_lex_connected(at, bt);
        assert(a =~= seq![a[0]] + at);
        assert(b =~= seq![b[0]] + bt);
    }
}

/// Decimal digits of a nonnegative integer, most significant first.
pub open spec fn dec_u(n: nat) -> Seq<u8>
    decreases n,
{
    if n < 10 {
        seq![(48 + n) as u8]
    } else {
        dec_u(n / 10).push((48 + n % 10) as u8)
    }
}

/// A value in tenths written with one decimal digit, minus sign first for
/// negative values.
pub open spec fn fmt_tenths(t: int) -> Seq<u8> {
    if t < 0 {
        seq![MINUS] + fmt_tenths_nonneg(-t)
    } else {
        fmt_tenths_nonneg(t)
    }
}

pub open spec fn fmt_tenths_nonneg(u: int) -> Seq<u8>
    recommends
        u >= 0,
{
    dec_u((u / 10) as nat) + seq![DOT] + seq![(48 + u % 10) as u8]
}

/// The quotient rounded to the nearest integer, ties to the even neighbour.
pub open spec fn round_half_even(num: int, den: int) -> int
    recommends
        den > 0,
{
    if num < 0 {
        -round_half_even_nonneg(-num, den)
    } else {
        round_half_even_nonneg(num, den)
    }
}

pub open spec fn round_half_even_nonneg(num: int, den: int) -> int
    recommends
        num >= 0,
        den > 0,
{
    let q = num / den;
    let r = num % den;
    if 2 * r < den {
        q
    } else if 2 * r > den {
        q + 1
    } else if q % 2 == 0 {
        q
    } else {
        q + 1
    }
}

/// One rendered entry: `key=min/mean/max`.
pub open spec fn entry_bytes(k: Seq<u8>, s: SStats) -> Seq<u8> {
    k + seq![EQUALS] + fmt_tenths(s.min) + seq![SLASH] + fmt_tenths(
        round_half_even(s.sum, s.count as int),
    ) + seq![SLASH] + fmt_tenths(s.max)
}

/// Entries joined with `, `.
pub open spec fn report_of(es: Seq<(Seq<u8>, SStats)>) -> Seq<u8>
    decreases es.len(),
{
    if es.len() == 0 {
        Seq::empty()
    } else if es.len() == 1 {
        entry_bytes(es[0].0, es[0].1)
    } else {
        report_of(es.drop_last()) + seq![COMMA, SPACE] + entry_bytes(
            es.last().0,
            es.last().1,
        )
    }
}

/// The bytes of `Result: `.
pub open spec fn report_prefix() -> Seq<u8> {
    seq![82u8, 101u8, 115u8, 117u8, 108u8, 116u8, 58u8, 32u8]
}

/// `es` lists exactly the entries of `m`, in strictly ascending key order.
pub open spec fn sorted_key_entries(es: Seq<(Seq<u8>, SStats)>, m: Map<Seq<u8>, SStats>) -> bool {
    &&& forall|i: int, j: int| 0 <= i < j < es.len() ==> lex_lt(es[i].0, es[j].0)
    &&& forall|i: int|
        0 <= i < es.len() ==> m.contains_key((#[trigger] es[i]).0) && m[es[i].0] == es[i].1
    &&& forall|k: Seq<u8>|
        m.contains_key(k) ==> exists|i: int| 0 <= i < es.len() && (#[trigger] es[i]).0 == k
}

/// The spec-level pairs of an executable entry list.
pub open spec fn entry_views(es: Seq<(Vec<u8>, Stats)>) -> Seq<(Seq<u8>, SStats)> {
    es.map_values(|e: (Vec<u8>, Stats)| (e.0@, e.1.model()))
}

/// Strict lexicographic comparison of two keys.
fn key_lt(a: &Vec<u8>, b: &Vec<u8>) -> (r: bool)
    ensures
        r == lex_lt(a@, b@),
{
    proof {
        assert(a@.subrange(0, a@.len() as int) =~= a@);
        assert(b@.subrange(0, b@.len() as int) =~= b@);
    }
    let mut i: usize = 0;
    while i < a.len() && i < b.len()
        invariant
            0 <= i <= a@.len(),
            0 <= i <= b@.len(),
            forall|j: int| 0 <= j < i ==> a@[j] == b@[j],
            lex_lt(a@, b@) == lex_lt(
                a@.subrange(i as int, a@.len() as int),
                b@.subrange(i as int, b@.len() as int),
            ),
        decreases a@.len() - i,
    {
        let sa = a[i];
        let sb = b[i];
        proof {
            let at = a@.subrange(i as int, a@.len() as int);
            let bt = b@.subrange(i as int, b@.len() as int);
            assert(at[0] == a@[i as int]);
            assert(bt[0] == b@[i as int]);
            assert(at.subrange(1, at.len() as int) =~= a@.subrange(
                i + 1,
                a@.len() as int,
            ));
            assert(bt.subrange(1, bt.len() as int) =~= b@.subrange(
                i + 1,
                b@.len() as int,
            ));
        }
        if sa < sb {
            return true;
        }
        if sa > sb {
            return false;
        }
        i += 1;
    }
    proof {
        let at = a@.subrange(i as int, a@.len() as int);
        let bt = b@.subrange(i as int, b@.len() as int);
        if i == a.len() {
            assert(at.len() == 0);
        } else {
            assert(bt.len() == 0);
        }
    }
    i == a.len() && i < b.len()
}

/// Appends the decimal digits of `n`.
fn push_dec(n: u64, out: &mut Vec<u8>)
    ensures
        final(out)@ == old(out)@ + dec_u(n as nat),
    decreases n,
{
    if n < 10 {
        out.push(48 + n as u8);
        proof {
            assert(old(out)@ + dec_u(n as nat) =~= old(out)@.push((48 + n as nat) as u8));
        }
    } else {
        push_dec(n / 10, out);
        out.push(48 + (n % 10) as u8);
        proof {
            assert(old(out)@ + dec_u(n as nat) =~= (old(out)@ + dec_u((n as nat) / 10)).push(
                (48 + (n as nat) % 10) as u8,
            ));
        }
    }
}

/// Appends a value in tenths as a decimal with one fractional digit.
fn push_tenths(t: i64, out: &mut Vec<u8>)
    requires
        -MAX_ABS_TENTHS <= t <= MAX_ABS_TENTHS,
    ensures
        final(out)@ == old(out)@ + fmt_tenths(t as int),
{
    let u: u64 = if t < 0 {
        out.push(MINUS);
        (-t) as u64
    } else {
        t as u64
    };
    push_dec(u / 10, out);
    out.push(DOT);
    out.push(48 + (u % 10) as u8);
    proof {
        let v = if t < 0 { -(t as int) } else { t as int };
        assert(u == v);
        assert((u as nat) / 10 == (v / 10) as nat);
        assert((48 + (u as nat) % 10) as u8 == (48 + v % 10) as u8);
        if t < 0 {
            assert(old(out)@ + fmt_tenths(t as int) =~= ((old(out)@.push(MINUS) + dec_u(
                (v / 10) as nat,
            )).push(DOT)).push((48 + v % 10) as u8));
        } else {
            assert(old(out)@ + fmt_tenths(t as int) =~= ((old(out)@ + dec_u(
                (v / 10) as nat,
            )).push(DOT)).push((48 + v % 10) as u8));
        }
    }
}

/// The mean of an aggregate in tenths, rounded half to even; it stays
/// within the representable sample range.
fn mean_tenths(sum: i128, count: u64) -> (r: i64)
    requires
        count > 0,
        -(count * MAX_ABS_TENTHS) <= sum <= count * MAX_ABS_TENTHS,
    ensures
        r == round_half_even(sum as int, count as int),
        -MAX_ABS_TENTHS <= r <= MAX_ABS_TENTHS,
{
    let neg = sum < 0;
    let a: u128 = if neg {
        (-sum) as u128
    } else {
        sum as u128
    };
    let d: u128 = count as u128;
    let q = a / d;
    let rem = a % d;
    proof {
        lemma_fundamental_div_mod(a as int, d as int);
        lemma_div_is_ordered(a as int, (d * MAX_ABS_TENTHS) as int, d as int);
        lemma_div_multiples_vanish(MAX_ABS_TENTHS as int, d as int);
        assert((a as int) / (d as int) <= MAX_ABS_TENTHS);
        if q == MAX_ABS_TENTHS {
            assert(a as int == d as int * MAX_ABS_TENTHS + rem);
            assert(rem == 0);
        }
    }
    let rounded: u128 = if 2 * rem < d {
        q
    } else if 2 * rem > d {
        q + 1
    } else if q % 2 == 0 {
        q
    } else {
        q + 1
    };
    let m = rounded as i64;
    if neg {
        -m
    } else {
        m
    }
}

/// Appends one rendered entry.
fn append_entry(out: &mut Vec<u8>, key: &Vec<u8>, st: &Stats)
    requires
        st.wf(),
        st.model().count > 0,
    ensures
        final(out)@ == old(out)@ + entry_bytes(key@, st.model()),
{
    out.extend_from_slice(key.as_slice());
    out.push(EQUALS);
    push_tenths(st.min, out);
    out.push(SLASH);
    let mean = mean_tenths(st.sum, st.count);
    push_tenths(mean, out);
    out.push(SLASH);
    push_tenths(st.max, out);
    proof {
        let s = st.model();
        assert(old(out)@ + entry_bytes(key@, s) =~= (((((old(out)@ + key@).push(EQUALS)
            + fmt_tenths(s.min)).push(SLASH) + fmt_tenths(
            round_half_even(s.sum, s.count as int),
        )).push(SLASH)) + fmt_tenths(s.max)));
    }
}

/// Consumes the map and returns its entries sorted by key, ascending.
fn into_sorted_entries(map: AggregateMap) -> (v: Vec<(Vec<u8>, Stats)>)
    requires
        map.wf(),
    ensures
        sorted_key_entries(entry_views(v@), map@),
{
    let ghost m0 = map@;
    let mut rem = map;
    let mut out: Vec<(Vec<u8>, Stats)> = Vec::new();
    proof {
        lemma_entries_model_props(rem.entries@);
    }
    while rem.entries.len() > 0
        invariant
            crate::aggmap::distinct_keys(rem.entries@),
            forall|i: int, j: int|
                0 <= i < j < out@.len() ==> lex_lt(
                    (#[trigger] out@[i]).0@,
                    (#[trigger] out@[j]).0@,
                ),
            forall|o: int, r: int|
                0 <= o < out@.len() && 0 <= r < rem.entries@.len() ==> lex_lt(
                    (#[trigger] out@[o]).0@,
                    (#[trigger] rem.entries@[r]).0@,
                ),
            forall|i: int|
                0 <= i < out@.len() ==> m0.contains_key((#[trigger] out@[i]).0@)
                    && m0[out@[i].0@] == out@[i].1.model(),
            forall|i: int|
                0 <= i < rem.entries@.len() ==> m0.contains_key(
                    (#[trigger] rem.entries@[i]).0@,
                ) && m0[rem.entries@[i].0@] == rem.entries@[i].1.model(),
            forall|k: Seq<u8>|
                m0.contains_key(k) ==> (exists|i: int|
                    0 <= i < out@.len() && (#[trigger] out@[i]).0@ == k) || (exists|i: int|
                    0 <= i < rem.entries@.len() && (#[trigger] rem.entries@[i]).0@ == k),
        decreases rem.entries@.len(),
    {
        let mut jmin: usize = 0;
        let mut j: usize = 1;
        proof {
            lemma_lex_irreflexive(rem.entries@[0].0@);
        }
        while j < rem.entries.len()
            invariant
                0 <= jmin < j <= rem.entries@.len(),
                forall|l: int|
                    0 <= l < j ==> !lex_lt(
                        (#[trigger] rem.entries@[l]).0@,
                        rem.entries@[jmin as int].0@,
                    ),
            decreases rem.entries@.len() - j,
        {
            if key_lt(&rem.entries[j].0, &rem.entries[jmin].0) {
                proof {
                    assert forall|l: int| 0 <= l < j + 1 implies !lex_lt(
                        (#[trigger] rem.entries@[l]).0@,
                        rem.entries@[j as int].0@,
                    ) by {
                        if l < j {
                            if lex_lt(rem.entries@[l].0@, rem.entries@[j as int].0@) {
                                lemma_lex_order(
                                    rem.entries@[l].0@,
                                    rem.entries@[j as int].0@,
                                    rem.entries@[jmin as int].0@,
                                );
                            }
                        } else {
                            lemma_lex_irreflexive(rem.entries@[j as int].0@);
                        }
                    }
                }
                jmin = j;
            }
            j += 1;
        }
        let ghost rem0 = rem.entries@;
        let e = rem.entries.remove(jmin);
        proof {
            rem0.remove_ensures(jmin as int);
            assert(rem.entries@.len() == rem0.len() - 1);
            assert forall|r: int| 0 <= r < rem.entries@.len() implies lex_lt(
                e.0@,
                (#[trigger] rem.entries@[r]).0@,
            ) by {
                let orig: int = if r < jmin { r } else { r + 1 };
                assert(rem.entries@[r] == rem0[orig]);
                assert(!lex_lt(rem0[orig].0@, e.0@));
                if !lex_lt(e.0@, rem0[orig].0@) {
                    lemma_lex_connected(e.0@, rem0[orig].0@);
                    assert(rem0[jmin as int].0@ == rem0[orig].0@);
                }
            }
        }
        let ghost out0 = out@;
        out.push(e);
        proof {
            assert(forall|i: int| 0 <= i < out0.len() ==> out@[i] == #[trigger] out0[i]);
            assert(out@[out@.len() - 1] == e);
            assert forall|k: Seq<u8>| m0.contains_key(k) implies (exists|i: int|
                0 <= i < out@.len() && (#[trigger] out@[i]).0@ == k) || (exists|i: int|
                0 <= i < rem.entries@.len() && (#[trigger] rem.entries@[i]).0@ == k) by {
                if exists|i: int| 0 <= i < out0.len() && (#[trigger] out0[i]).0@ == k {
                    let i = choose|i: int| 0 <= i < out0.len() && (#[trigger] out0[i]).0@ == k;
                    assert(out@[i].0@ == k);
                } else {
                    let i = choose|i: int|
                        0 <= i < rem0.len() && (#[trigger] rem0[i]).0@ == k;
                    if i == jmin {
                        assert(out@[out@.len() - 1].0@ == k);
                    } else {
                        let ni: int = if i < jmin { i } else { i - 1 };
                        assert(rem.entries@[ni] == rem0[i]);
                        assert(rem.entries@[ni].0@ == k);
                    }
                }
            }
        }
    }
    proof {
        let es = entry_views(out@);
        assert(es.len() == out@.len());
        assert(forall|i: int|
            0 <= i < out@.len() ==> (#[trigger] es[i]) == (out@[i].0@, out@[i].1.model()));
        assert forall|k: Seq<u8>| m0.contains_key(k) implies exists|i: int|
            0 <= i < es.len() && (#[trigger] es[i]).0 == k by {
            let i = choose|i: int| 0 <= i < out@.len() && (#[trigger] out@[i]).0@ == k;
            assert(es[i].0 == k);
        }
    }
    out
}

/// The order is irreflexive: no key precedes itself.
proof fn lemma_lex_irreflexive(a: Seq<u8>)
    ensures
        !lex_lt(a, a),
    decreases a.len(),
{
    if a.len() > 0 {
        lemma_lex_irreflexive(a.subrange(1, a.len() as int));
    }
}

/// The order is transitive.
proof fn lemma_lex_order(a: Seq<u8>, b: Seq<u8>, c: Seq<u8>)
    requires
        lex_lt(a, b),
        lex_lt(b, c),
    ensures
        lex_lt(a, c),
    decreases a.len(),
{
    if a.len() > 0 && b.len() > 0 && c.len() > 0 && a[0] == b[0] && b[0] == c[0] {
        lemma_lex_order(
            a.subrange(1, a.len() as int),
            b.subrange(1, b.len() as int),
            c.subrange(1, c.len() as int),
        );
    }
}

/// Renders the whole report: `Result: ` then the entries of the map in
/// ascending key order, joined with `, `.
pub fn render_report(map: AggregateMap) -> (out: Vec<u8>)
    requires
        map.wf(),
    ensures
        exists|es: Seq<(Seq<u8>, SStats)>|
            #[trigger] sorted_key_entries(es, map@) && out@ == report_prefix() + report_of(es),
{
    proof {
        lemma_wf_entries_model(map.entries@);
    }
    let ghost m0 = map@;
    let entries = into_sorted_entries(map);
    let ghost es = entry_views(entries@);
    let mut out: Vec<u8> = Vec::new();
    out.push(82);
    out.push(101);
    out.push(115);
    out.push(117);
    out.push(108);
    out.push(116);
    out.push(58);
    out.push(32);
    proof {
        assert(out@ =~= report_prefix());
        assert(es.subrange(0, 0) =~= Seq::<(Seq<u8>, SStats)>::empty());
    }
    let mut i: usize = 0;
    while i < entries.len()
        invariant
            0 <= i <= entries@.len(),
            es == entry_views(entries@),
            es.len() == entries@.len(),
            sorted_key_entries(es, m0),
            crate::aggspec::wf_agg_map(m0),
            out@ == report_prefix() + report_of(es.subrange(0, i as int)),
        decreases entries@.len() - i,
    {
        if i > 0 {
            out.push(COMMA);
            out.push(SPACE);
        }
        let ghost before = out@;
        proof {
            assert(m0.contains_key(es[i as int].0));
            assert(entries@[i as int].1.model() == es[i as int].1);
            assert(crate::stats::wf_sstats(m0[es[i as int].0]));
        }
        append_entry(&mut out, &entries[i].0, &entries[i].1);
        proof {
            let pre = es.subrange(0, i as int);
            let cur = es.subrange(0, i + 1);
            assert(cur.drop_last() =~= pre);
            assert(cur.last() == es[i as int]);
            if i == 0 {
                assert(report_of(cur) == entry_bytes(es[0].0, es[0].1));
                assert(out@ =~= report_prefix() + report_of(cur));
            } else {
                assert(report_of(cur) == report_of(pre) + seq![COMMA, SPACE] + entry_bytes(
                    es[i as int].0,
                    es[i as int].1,
                ));
                assert(out@ =~= report_prefix() + report_of(cur));
            }
        }
        i += 1;
    }
    proof {
        assert(es.subrange(0, es.len() as int) =~= es);
    }
    out
}

} // verus!
