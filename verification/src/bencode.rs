//! Bencode: the tagged value, its canonical byte encoding, and a strict
//! decoder.
//!
//! A value is a byte string, a signed integer, a list, or a dictionary of
//! byte-string keys.  Encoding writes `<len>:<bytes>`, `i<digits>e`,
//! `l...e` and `d...e`, with integer spellings carrying no redundant sign
//! or zeros.  Decoding accepts exactly those spellings and keeps
//! dictionary entries in wire order.

use vstd::prelude::*;
use vstd::string::StringSliceAdditionalSpecFns;

use crate::error::BitTorrentError;

verus! {

/// A bencode value.  Dictionary entries keep their order; canonical
/// values keep their keys sorted by raw bytes.
#[derive(Debug, PartialEq)]
pub enum Bencode {
    Str(Vec<u8>),
    Int(i64),
    List(Vec<Bencode>),
    Dict(Vec<(Vec<u8>, Bencode)>),
}

/// The mathematical shape of a bencode value.
#[verifier::ext_equal]
pub enum BencodeView {
    Str(Seq<u8>),
    Int(i64),
    List(Seq<BencodeView>),
    Dict(Seq<(Seq<u8>, BencodeView)>),
}

/// The view of a value: byte runs as sequences, all the way down.
pub open spec fn bview(b: Bencode) -> BencodeView
    decreases b,
{
    match b {
        Bencode::Str(v) => BencodeView::Str(v@),
        Bencode::Int(i) => BencodeView::Int(i),
        Bencode::List(l) => BencodeView::List(bview_list(l@)),
        Bencode::Dict(d) => BencodeView::Dict(bview_pairs(d@)),
    }
}

/// The views of a run of values.
pub open spec fn bview_list(l: Seq<Bencode>) -> Seq<BencodeView>
    decreases l,
{
    if l.len() == 0 {
        Seq::empty()
    } else {
        seq![bview(l[0])] + bview_list(l.drop_first())
    }
}

/// The views of a run of key-value entries.
pub open spec fn bview_pairs(d: Seq<(Vec<u8>, Bencode)>) -> Seq<(Seq<u8>, BencodeView)>
    decreases d,
{
    if d.len() == 0 {
        Seq::empty()
    } else {
        seq![(d[0].0@, bview(d[0].1))] + bview_pairs(d.drop_first())
    }
}

impl View for Bencode {
    type V = BencodeView;

    open spec fn view(&self) -> BencodeView {
        bview(*self)
    }
}

pub proof fn lemma_bview_list_props(l: Seq<Bencode>)
    ensures
        bview_list(l).len() == l.len(),
        forall|i: int| 0 <= i < l.len() ==> bview_list(l)[i] == bview(l[i]),
    decreases l.len(),
{
    if l.len() > 0 {
        lemma_bview_list_props(l.drop_first());
        assert forall|i: int| 0 <= i < l.len() implies bview_list(l)[i] == bview(l[i]) by {
            if i > 0 {
                assert(bview_list(l)[i] == bview_list(l.drop_first())[i - 1]);
                assert(l.drop_first()[i - 1] == l[i]);
            }
        }
    }
}

pub proof fn lemma_bview_pairs_props(d: Seq<(Vec<u8>, Bencode)>)
    ensures
        bview_pairs(d).len() == d.len(),
        forall|i: int|
            0 <= i < d.len() ==> bview_pairs(d)[i] == ((d[i].0@, bview(d[i].1))),
    decreases d.len(),
{
    if d.len() > 0 {
        lemma_bview_pairs_props(d.drop_first());
        assert forall|i: int| 0 <= i < d.len() implies bview_pairs(d)[i] == ((
        d[i].0@,
        bview(d[i].1),
        )) by {
            if i > 0 {
                assert(bview_pairs(d)[i] == bview_pairs(d.drop_first())[i - 1]);
                assert(d.drop_first()[i - 1] == d[i]);
            }
        }
    }
}

/// The decimal digits of a non-negative number, no leading zeros.
pub open spec fn dec_digits(n: nat) -> Seq<u8>
    decreases n,
{
    if n < 10 {
        seq![(0x30 + n) as u8]
    } else {
        dec_digits(n / 10).push((0x30 + n % 10) as u8)
    }
}

/// The spelling of an integer: a minus sign for negative values, then
/// the digits of the magnitude.
pub open spec fn int_bytes(i: int) -> Seq<u8> {
    if i >= 0 {
        dec_digits(i as nat)
    } else {
        seq![0x2du8] + dec_digits((-i) as nat)
    }
}

/// The encoding of a value, entries written in stored order.
pub open spec fn benc(v: BencodeView) -> Seq<u8>
    decreases v,
{
    match v {
        BencodeView::Str(s) => dec_digits(s.len()) + seq![0x3au8] + s,
        BencodeView::Int(i) => seq![0x69u8] + int_bytes(i as int) + seq![0x65u8],
        BencodeView::List(l) => seq![0x6cu8] + benc_seq(l) + seq![0x65u8],
        BencodeView::Dict(d) => seq![0x64u8] + benc_pairs(d) + seq![0x65u8],
    }
}

/// The encodings of a run of values, concatenated.
pub open spec fn benc_seq(l: Seq<BencodeView>) -> Seq<u8>
    decreases l,
{
    if l.len() == 0 {
        Seq::empty()
    } else {
        benc(l[0]) + benc_seq(l.drop_first())
    }
}

/// The encodings of a run of entries: each key as a byte string, then
/// its value.
pub open spec fn benc_pairs(d: Seq<(Seq<u8>, BencodeView)>) -> Seq<u8>
    decreases d,
{
    if d.len() == 0 {
        Seq::empty()
    } else {
        dec_digits(d[0].0.len()) + seq![0x3au8] + d[0].0 + benc(d[0].1) + benc_pairs(d.drop_first())
    }
}

/// Whether one byte run orders strictly before another, by raw bytes.
pub open spec fn lex_lt(a: Seq<u8>, b: Seq<u8>) -> bool
    decreases a.len(),
{
    if b.len() == 0 {
        false
    } else if a.len() == 0 {
        true
    } else if a[0] != b[0] {
        a[0] < b[0]
    } else {
        lex_lt(a.drop_first(), b.drop_first())
    }
}

/// Whether every dictionary in a value keeps its keys strictly
/// ascending by raw bytes: the canonical form of a well-formed value.
pub open spec fn dicts_sorted(v: BencodeView) -> bool
    decreases v,
{
    match v {
        BencodeView::Str(_) => true,
        BencodeView::Int(_) => true,
        BencodeView::List(l) => forall|i: int|
            0 <= i < l.len() ==> dicts_sorted(#[trigger] l[i]),
        BencodeView::Dict(d) => {
            &&& forall|i: int| 0 <= i < d.len() ==> dicts_sorted((#[trigger] d[i]).1)
            &&& forall|i: int, j: int|
                0 <= i < j < d.len() ==> lex_lt((#[trigger] d[i]).0, (#[trigger] d[j]).0)
        },
    }
}

/// Whether a run of entries never steps down in key order.  Unlike the
/// strict `dicts_sorted`, equal keys may sit side by side.
pub open spec fn keys_sorted(d: Seq<(Seq<u8>, BencodeView)>) -> bool {
    forall|i: int, j: int|
        0 <= i < j < d.len() ==> !lex_lt((#[trigger] d[j]).0, (#[trigger] d[i]).0)
}

/// Whether every dictionary in a value keeps its keys in non-descending
/// order by raw bytes: what canonicalizing guarantees.
pub open spec fn dicts_ordered(v: BencodeView) -> bool
    decreases v,
{
    match v {
        BencodeView::Str(_) => true,
        BencodeView::Int(_) => true,
        BencodeView::List(l) => forall|i: int|
            0 <= i < l.len() ==> dicts_ordered(#[trigger] l[i]),
        BencodeView::Dict(d) => {
            &&& keys_sorted(d)
            &&& forall|i: int| 0 <= i < d.len() ==> dicts_ordered((#[trigger] d[i]).1)
        },
    }
}

/// Where an entry lands among already-sorted entries: before the first
/// strictly greater key.
pub open spec fn insert_pos(d: Seq<(Seq<u8>, BencodeView)>, p: (Seq<u8>, BencodeView)) -> int
    decreases d.len(),
{
    if d.len() == 0 {
        0
    } else if lex_lt(p.0, d[0].0) {
        0
    } else {
        1 + insert_pos(d.drop_first(), p)
    }
}

/// An entry placed among sorted entries, at its position.
pub open spec fn sorted_insert(
    d: Seq<(Seq<u8>, BencodeView)>,
    p: (Seq<u8>, BencodeView),
) -> Seq<(Seq<u8>, BencodeView)>
    decreases d.len(),
{
    if d.len() == 0 {
        seq![p]
    } else if lex_lt(p.0, d[0].0) {
        seq![p] + d
    } else {
        seq![d[0]] + sorted_insert(d.drop_first(), p)
    }
}

/// Entries rearranged into non-descending key order, one insertion at a
/// time.
pub open spec fn sort_pairs(d: Seq<(Seq<u8>, BencodeView)>) -> Seq<(Seq<u8>, BencodeView)>
    decreases d.len(),
{
    if d.len() == 0 {
        Seq::empty()
    } else {
        sorted_insert(sort_pairs(d.drop_last()), d.last())
    }
}

/// The canonical form of a value: the same data, every dictionary's
/// entries rearranged into key order, at every depth.
pub open spec fn canon_spec(v: BencodeView) -> BencodeView
    decreases v,
{
    match v {
        BencodeView::Str(s) => BencodeView::Str(s),
        BencodeView::Int(i) => BencodeView::Int(i),
        BencodeView::List(l) => BencodeView::List(canon_list(l)),
        BencodeView::Dict(d) => BencodeView::Dict(sort_pairs(canon_pairs(d))),
    }
}

/// Every element of a run canonicalized.
pub open spec fn canon_list(l: Seq<BencodeView>) -> Seq<BencodeView>
    decreases l,
{
    if l.len() == 0 {
        Seq::empty()
    } else {
        seq![canon_spec(l[0])] + canon_list(l.drop_first())
    }
}

/// Every entry's value canonicalized, keys and order untouched.
pub open spec fn canon_pairs(d: Seq<(Seq<u8>, BencodeView)>) -> Seq<(Seq<u8>, BencodeView)>
    decreases d,
{
    if d.len() == 0 {
        Seq::empty()
    } else {
        seq![(d[0].0, canon_spec(d[0].1))] + canon_pairs(d.drop_first())
    }
}

pub proof fn lemma_canon_list_props(l: Seq<BencodeView>)
    ensures
        canon_list(l).len() == l.len(),
        forall|i: int| 0 <= i < l.len() ==> canon_list(l)[i] == canon_spec(#[trigger] l[i]),
    decreases l.len(),
{
    if l.len() > 0 {
        lemma_canon_list_props(l.drop_first());
        assert forall|i: int| 0 <= i < l.len() implies canon_list(l)[i] == canon_spec(
            #[trigger] l[i],
        ) by {
            if i > 0 {
                assert(canon_list(l)[i] == canon_list(l.drop_first())[i - 1]);
                assert(l.drop_first()[i - 1] == l[i]);
            }
        }
    }
}

pub proof fn lemma_canon_pairs_props(d: Seq<(Seq<u8>, BencodeView)>)
    ensures
        canon_pairs(d).len() == d.len(),
        forall|i: int|
            0 <= i < d.len() ==> canon_pairs(d)[i] == (((#[trigger] d[i]).0, canon_spec(d[i].1))),
    decreases d.len(),
{
    if d.len() > 0 {
        lemma_canon_pairs_props(d.drop_first());
        assert forall|i: int| 0 <= i < d.len() implies canon_pairs(d)[i] == ((
        (#[trigger] d[i]).0,
        canon_spec(d[i].1),
        )) by {
            if i > 0 {
                assert(canon_pairs(d)[i] == canon_pairs(d.drop_first())[i - 1]);
                assert(d.drop_first()[i - 1] == d[i]);
            }
        }
    }
}

/// Strict key order is asymmetric: two runs never order before each
/// other at once.
proof fn lemma_lex_lt_asym(a: Seq<u8>, b: Seq<u8>)
    requires
        lex_lt(a, b),
    ensures
        !lex_lt(b, a),
    decreases a.len(),
{
    if a.len() > 0 && b.len() > 0 && a[0] == b[0] {
        lemma_lex_lt_asym(a.drop_first(), b.drop_first());
    }
}

/// Strict key order chains.
proof fn lemma_lex_lt_trans(a: Seq<u8>, b: Seq<u8>, c: Seq<u8>)
    requires
        lex_lt(a, b),
        lex_lt(b, c),
    ensures
        lex_lt(a, c),
    decreases a.len() + b.len() + c.len(),
{
    if a.len() > 0 && b.len() > 0 && c.len() > 0 && a[0] == b[0] && b[0] == c[0] {
        lemma_lex_lt_trans(a.drop_first(), b.drop_first(), c.drop_first());
    }
}

/// A shared prefix does not decide the order: comparison continues on
/// the tails.
proof fn lemma_lex_lt_skip(a: Seq<u8>, b: Seq<u8>, i: int)
    requires
        0 <= i <= a.len(),
        i <= b.len(),
        forall|j: int| 0 <= j < i ==> a[j] == b[j],
    ensures
        lex_lt(a, b) == lex_lt(a.skip(i), b.skip(i)),
    decreases i,
{
    if i > 0 {
        assert(a.len() > 0 && b.len() > 0 && a[0] == b[0]);
        assert forall|j: int| 0 <= j < i - 1 implies a.drop_first()[j] == b.drop_first()[j] by {
            assert(a.drop_first()[j] == a[j + 1]);
            assert(b.drop_first()[j] == b[j + 1]);
        }
        lemma_lex_lt_skip(a.drop_first(), b.drop_first(), i - 1);
        assert(a.drop_first().skip(i - 1) =~= a.skip(i));
        assert(b.drop_first().skip(i - 1) =~= b.skip(i));
    } else {
        assert(a.skip(0) =~= a);
        assert(b.skip(0) =~= b);
    }
}

/// Where the insertion position sits, and what holds on its two sides.
proof fn lemma_insert_pos_props(d: Seq<(Seq<u8>, BencodeView)>, p: (Seq<u8>, BencodeView))
    ensures
        0 <= insert_pos(d, p) <= d.len(),
        forall|m: int| 0 <= m < insert_pos(d, p) ==> !lex_lt(p.0, (#[trigger] d[m]).0),
        insert_pos(d, p) < d.len() ==> lex_lt(p.0, d[insert_pos(d, p)].0),
        sorted_insert(d, p) == d.subrange(0, insert_pos(d, p)) + seq![p] + d.subrange(
            insert_pos(d, p),
            d.len() as int,
        ),
    decreases d.len(),
{
    if d.len() == 0 {
        assert(sorted_insert(d, p) =~= d.subrange(0, 0) + seq![p] + d.subrange(0, 0));
    } else if lex_lt(p.0, d[0].0) {
        assert(sorted_insert(d, p) =~= d.subrange(0, 0) + seq![p] + d.subrange(0, d.len() as int));
    } else {
        lemma_insert_pos_props(d.drop_first(), p);
        let j = insert_pos(d, p);
        assert forall|m: int| 0 <= m < j implies !lex_lt(p.0, (#[trigger] d[m]).0) by {
            if m > 0 {
                assert(d.drop_first()[m - 1] == d[m]);
            }
        }
        if j < d.len() {
            assert(d.drop_first()[j - 1] == d[j]);
        }
        assert(d.drop_first().subrange(0, j - 1) =~= d.subrange(1, j));
        assert(d.drop_first().subrange(j - 1, d.len() - 1) =~= d.subrange(j, d.len() as int));
        assert(sorted_insert(d, p) =~= d.subrange(0, j) + seq![p] + d.subrange(
            j,
            d.len() as int,
        ));
    }
}

/// Inserting at the position keeps the run in non-descending key order.
proof fn lemma_sorted_insert_keeps_order(d: Seq<(Seq<u8>, BencodeView)>, p: (Seq<u8>, BencodeView))
    requires
        keys_sorted(d),
    ensures
        keys_sorted(sorted_insert(d, p)),
{
    lemma_insert_pos_props(d, p);
    let j = insert_pos(d, p);
    let r = sorted_insert(d, p);
    assert forall|x: int, y: int|
        0 <= x < y < r.len() implies !lex_lt((#[trigger] r[y]).0, (#[trigger] r[x]).0) by {
        let xo = if x < j {
            x
        } else {
            x - 1
        };
        let yo = if y < j {
            y
        } else {
            y - 1
        };
        if x < j {
            assert(r[x] == d[x]);
        } else if x == j {
            assert(r[x] == p);
        } else {
            assert(r[x] == d[x - 1]);
        }
        if y < j {
            assert(r[y] == d[y]);
        } else if y == j {
            assert(r[y] == p);
        } else {
            assert(r[y] == d[y - 1]);
        }
        if x == j {
            // Nothing after the position orders before p: the entry at
            // the position is strictly greater, and order carries on.
            assert(y > j && yo >= j && yo < d.len());
            assert(lex_lt(p.0, d[j].0));
            if lex_lt(d[yo].0, p.0) {
                if yo == j {
                    lemma_lex_lt_asym(p.0, d[j].0);
                } else {
                    lemma_lex_lt_trans(d[yo].0, p.0, d[j].0);
                    assert(!lex_lt(d[yo].0, d[j].0));
                }
                assert(false);
            }
        } else if y == j {
            // Nothing at or before the position is greater than p.
            assert(!lex_lt(p.0, d[xo].0));
        } else {
            assert(!lex_lt(d[yo].0, d[xo].0));
        }
    }
}

/// Sorting leaves the run in non-descending key order.
proof fn lemma_sort_pairs_ordered(d: Seq<(Seq<u8>, BencodeView)>)
    ensures
        keys_sorted(sort_pairs(d)),
    decreases d.len(),
{
    if d.len() > 0 {
        lemma_sort_pairs_ordered(d.drop_last());
        lemma_sorted_insert_keeps_order(sort_pairs(d.drop_last()), d.last());
    }
}

/// Insertion only adds the one entry: everything in the result was
/// there before, or is the inserted entry.
proof fn lemma_sorted_insert_contains(
    d: Seq<(Seq<u8>, BencodeView)>,
    p: (Seq<u8>, BencodeView),
    q: (Seq<u8>, BencodeView),
)
    requires
        sorted_insert(d, p).contains(q),
    ensures
        d.contains(q) || q == p,
{
    lemma_insert_pos_props(d, p);
    let j = insert_pos(d, p);
    let r = sorted_insert(d, p);
    let w = choose|w: int| 0 <= w < r.len() && r[w] == q;
    if w < j {
        assert(r[w] == d[w]);
        assert(d.contains(q));
    } else if w == j {
        assert(r[w] == p);
    } else {
        assert(r[w] == d[w - 1]);
        assert(d.contains(q));
    }
}

/// Sorting only rearranges: everything in the sorted run was in the
/// original.
proof fn lemma_sort_pairs_contains(d: Seq<(Seq<u8>, BencodeView)>, q: (Seq<u8>, BencodeView))
    requires
        sort_pairs(d).contains(q),
    ensures
        d.contains(q),
    decreases d.len(),
{
    lemma_sorted_insert_contains(sort_pairs(d.drop_last()), d.last(), q);
    if q == d.last() {
        assert(d[d.len() - 1] == q);
    } else {
        lemma_sort_pairs_contains(d.drop_last(), q);
        let w = choose|w: int| 0 <= w < d.drop_last().len() && d.drop_last()[w] == q;
        assert(d[w] == q);
    }
}

/// A run whose keys already ascend strictly is its own sorted form.
proof fn lemma_sort_of_sorted(d: Seq<(Seq<u8>, BencodeView)>)
    requires
        forall|i: int, j: int|
            0 <= i < j < d.len() ==> lex_lt((#[trigger] d[i]).0, (#[trigger] d[j]).0),
    ensures
        sort_pairs(d) == d,
    decreases d.len(),
{
    if d.len() == 0 {
        assert(sort_pairs(d) =~= d);
    } else {
        let front = d.drop_last();
        assert forall|i: int, j: int|
            0 <= i < j < front.len() implies lex_lt(
            (#[trigger] front[i]).0,
            (#[trigger] front[j]).0,
        ) by {
            assert(front[i] == d[i]);
            assert(front[j] == d[j]);
        }
        lemma_sort_of_sorted(front);
        lemma_insert_pos_props(front, d.last());
        let j = insert_pos(front, d.last());
        assert forall|m: int| 0 <= m < front.len() implies !lex_lt(
            d.last().0,
            (#[trigger] front[m]).0,
        ) by {
            assert(front[m] == d[m]);
            assert(lex_lt(d[m].0, d.last().0));
            lemma_lex_lt_asym(d[m].0, d.last().0);
        }
        assert(j == front.len()) by {
            if j < front.len() {
                assert(lex_lt(d.last().0, front[j].0));
            }
        }
        assert(sorted_insert(front, d.last()) =~= d);
    }
}

/// A value in canonical form is its own canonical form.
pub proof fn lemma_canon_of_sorted(v: BencodeView)
    requires
        dicts_sorted(v),
    ensures
        canon_spec(v) == v,
    decreases v,
{
    match v {
        BencodeView::Str(_) => {},
        BencodeView::Int(_) => {},
        BencodeView::List(l) => {
            lemma_canon_list_props(l);
            assert forall|i: int| 0 <= i < l.len() implies canon_list(l)[i] == #[trigger] l[i] by {
                lemma_canon_of_sorted(l[i]);
            }
            assert(canon_list(l) =~= l);
        },
        BencodeView::Dict(d) => {
            lemma_canon_pairs_props(d);
            assert forall|i: int| 0 <= i < d.len() implies canon_pairs(d)[i] == #[trigger] d[i] by {
                lemma_canon_of_sorted(d[i].1);
                assert(canon_pairs(d)[i] =~~= d[i]);
            }
            assert(canon_pairs(d) =~= d);
            lemma_sort_of_sorted(d);
        },
    }
}

/// Whatever the input, its canonical form keeps every dictionary's keys
/// in order: the canonical encoder below emits sorted dictionaries.
pub proof fn lemma_canon_ordered(v: BencodeView)
    ensures
        dicts_ordered(canon_spec(v)),
    decreases v,
{
    match v {
        BencodeView::Str(_) => {},
        BencodeView::Int(_) => {},
        BencodeView::List(l) => {
            lemma_canon_list_props(l);
            assert forall|i: int|
                0 <= i < canon_list(l).len() implies dicts_ordered(
                #[trigger] canon_list(l)[i],
            ) by {
                lemma_canon_ordered(l[i]);
            }
        },
        BencodeView::Dict(d) => {
            let cp = canon_pairs(d);
            lemma_canon_pairs_props(d);
            lemma_sort_pairs_ordered(cp);
            assert forall|i: int|
                0 <= i < sort_pairs(cp).len() implies dicts_ordered(
                (#[trigger] sort_pairs(cp)[i]).1,
            ) by {
                let q = sort_pairs(cp)[i];
                assert(sort_pairs(cp).contains(q));
                lemma_sort_pairs_contains(cp, q);
                let w = choose|w: int| 0 <= w < cp.len() && cp[w] == q;
                assert(cp[w] == (d[w].0, canon_spec(d[w].1)));
                lemma_canon_ordered(d[w].1);
            }
        },
    }
}

/// Whether a byte spells a decimal digit.
pub open spec fn is_digit(c: u8) -> bool {
    0x30 <= c && c <= 0x39
}

/// Whether every byte in `[from, to)` is a digit.
pub open spec fn all_digits_range(b: Seq<u8>, from: int, to: int) -> bool {
    forall|j: int| from <= j < to ==> is_digit(#[trigger] b[j])
}

/// The number the digits in `[from, to)` spell.
pub open spec fn digits_val(b: Seq<u8>, from: int, to: int) -> int
    decreases to - from,
{
    if to <= from {
        0
    } else {
        digits_val(b, from, to - 1) * 10 + (b[to - 1] - 0x30)
    }
}

/// Ten to the `k`.
pub open spec fn pow10(k: nat) -> int
    decreases k,
{
    if k == 0 {
        1
    } else {
        10 * pow10((k - 1) as nat)
    }
}

/// A digit run's value sits under ten to its width, and at or above ten
/// to one less when it does not start with zero.
pub proof fn lemma_digits_val_bounds(b: Seq<u8>, from: int, to: int)
    requires
        from <= to,
        all_digits_range(b, from, to),
    ensures
        0 <= digits_val(b, from, to) < pow10((to - from) as nat),
        from < to && b[from] != 0x30 ==> digits_val(b, from, to) >= pow10((to - from - 1) as nat),
    decreases to - from,
{
    if from < to {
        lemma_digits_val_bounds(b, from, to - 1);
        lemma_pow10_pos((to - from - 1) as nat);
        if to - from >= 2 {
            lemma_pow10_pos((to - from - 2) as nat);
        }
    }
}

pub proof fn lemma_pow10_pos(k: nat)
    ensures
        pow10(k) >= 1,
    decreases k,
{
    if k > 0 {
        lemma_pow10_pos((k - 1) as nat);
    }
}

/// The first position at or after `from` holding the byte, or -1.
pub open spec fn find_char(b: Seq<u8>, from: int, x: u8) -> int
    decreases b.len() - from,
{
    if from < 0 || from >= b.len() {
        -1
    } else if b[from] == x {
        from
    } else {
        find_char(b, from + 1, x)
    }
}

pub proof fn lemma_find_char_props(b: Seq<u8>, from: int, x: u8)
    requires
        from >= 0,
    ensures
        find_char(b, from, x) >= 0 ==> from <= find_char(b, from, x) < b.len() && b[find_char(
            b,
            from,
            x,
        )] == x && (forall|j: int| from <= j < find_char(b, from, x) ==> b[j] != x),
        find_char(b, from, x) < 0 ==> forall|j: int| from <= j < b.len() ==> b[j] != x,
    decreases b.len() - from,
{
    if from < b.len() && b[from] != x {
        lemma_find_char_props(b, from + 1, x);
    }
}

pub proof fn lemma_find_char_first(b: Seq<u8>, from: int, x: u8, k: int)
    requires
        0 <= from <= k < b.len(),
        b[k] == x,
        forall|j: int| from <= j < k ==> b[j] != x,
    ensures
        find_char(b, from, x) == k,
    decreases k - from,
{
    if from < k {
        lemma_find_char_first(b, from + 1, x, k);
    }
}

/// Whether `[s, t)` is a strict integer spelling: digits with an optional
/// leading minus, no minus-zero, no leading zeros.
pub open spec fn valid_int_run(b: Seq<u8>, s: int, t: int) -> bool {
    &&& t > s
    &&& if b[s] == 0x2d {
        &&& t > s + 1
        &&& all_digits_range(b, s + 1, t)
        &&& b[s + 1] != 0x30
    } else {
        &&& all_digits_range(b, s, t)
        &&& (b[s] != 0x30 || t == s + 1)
    }
}

/// The signed value the run `[s, t)` spells.
pub open spec fn int_run_val(b: Seq<u8>, s: int, t: int) -> int {
    if b[s] == 0x2d {
        -digits_val(b, s + 1, t)
    } else {
        digits_val(b, s, t)
    }
}

/// What stands at a position of a byte run, and where the value ends.
/// Nothing stands where the spelling is not strict bencode.
pub open spec fn parse_at(b: Seq<u8>, pos: int) -> Option<(BencodeView, int)>
    decreases b.len() - pos, 0int,
{
    if pos < 0 || pos >= b.len() {
        None
    } else if b[pos] == 0x69 {
        let e = find_char(b, pos + 1, 0x65);
        if e < 0 {
            None
        } else if valid_int_run(b, pos + 1, e) {
            let v = int_run_val(b, pos + 1, e);
            if -0x8000000000000000 <= v <= 0x7fffffffffffffff {
                Some((BencodeView::Int(v as i64), e + 1))
            } else {
                None
            }
        } else {
            None
        }
    } else if b[pos] == 0x6c {
        match items_at(b, pos + 1) {
            None => None,
            Some((vs, e)) => Some((BencodeView::List(vs), e)),
        }
    } else if b[pos] == 0x64 {
        match pairs_at(b, pos + 1) {
            None => None,
            Some((ps, e)) => Some((BencodeView::Dict(ps), e)),
        }
    } else if is_digit(b[pos]) {
        let c = find_char(b, pos, 0x3a);
        if c < 0 {
            None
        } else if all_digits_range(b, pos, c) && (b[pos] != 0x30 || c == pos + 1) {
            let n = digits_val(b, pos, c);
            if c + 1 + n <= b.len() {
                Some((BencodeView::Str(b.subrange(c + 1, c + 1 + n)), c + 1 + n))
            } else {
                None
            }
        } else {
            None
        }
    } else {
        None
    }
}

/// The list items standing at a position, up to the closing `e`.
pub open spec fn items_at(b: Seq<u8>, pos: int) -> Option<(Seq<BencodeView>, int)>
    decreases b.len() - pos, 1int,
{
    if pos < 0 || pos >= b.len() {
        None
    } else if b[pos] == 0x65 {
        Some((Seq::empty(), pos + 1))
    } else {
        match parse_at(b, pos) {
            None => None,
            Some((v, np)) => if pos < np <= b.len() {
                match items_at(b, np) {
                    None => None,
                    Some((vs, e)) => Some((seq![v] + vs, e)),
                }
            } else {
                None
            },
        }
    }
}

/// The dictionary entries standing at a position, up to the closing `e`;
/// every key must be a byte string.
pub open spec fn pairs_at(b: Seq<u8>, pos: int) -> Option<(Seq<(Seq<u8>, BencodeView)>, int)>
    decreases b.len() - pos, 1int,
{
    if pos < 0 || pos >= b.len() {
        None
    } else if b[pos] == 0x65 {
        Some((Seq::empty(), pos + 1))
    } else {
        match parse_at(b, pos) {
            None => None,
            Some((kv, np1)) => match kv {
                BencodeView::Str(k) => if pos < np1 <= b.len() {
                    match parse_at(b, np1) {
                        None => None,
                        Some((vv, np2)) => if np1 < np2 <= b.len() {
                            match pairs_at(b, np2) {
                                None => None,
                                Some((ps, e)) => Some((seq![(k, vv)] + ps, e)),
                            }
                        } else {
                            None
                        },
                    }
                } else {
                    None
                },
                _ => None,
            },
        }
    }
}

/// What decoding a whole byte run yields: the first value standing at
/// its start.  Trailing bytes are ignored: callers read one value.
pub open spec fn bdecode(b: Seq<u8>) -> Option<BencodeView> {
    match parse_at(b, 0) {
        None => None,
        Some((v, _)) => Some(v),
    }
}

/// Appends the decimal digits of a number.
pub fn push_plain_digits(out: &mut Vec<u8>, n: u64)
    ensures
        final(out)@ == old(out)@ + dec_digits(n as nat),
    decreases n,
{
    if n < 10 {
        out.push(0x30 + (n as u8));
        assert(out@ =~= old(out)@ + dec_digits(n as nat));
    } else {
        push_plain_digits(out, n / 10);
        out.push(0x30 + ((n % 10) as u8));
        assert(out@ =~= old(out)@ + dec_digits(n as nat));
    }
}

/// Appends the spelling of a signed integer.
fn push_int(out: &mut Vec<u8>, v: i64)
    ensures
        final(out)@ == old(out)@ + int_bytes(v as int),
{
    if v >= 0 {
        push_plain_digits(out, v as u64);
    } else {
        out.push(0x2d);
        let mag: u64 = (-(v as i128)) as u64;
        push_plain_digits(out, mag);
        assert(out@ =~= old(out)@ + int_bytes(v as int));
    }
}

pub proof fn lemma_bview_list_push(l: Seq<Bencode>, x: Bencode)
    ensures
        bview_list(l.push(x)) == bview_list(l) + seq![bview(x)],
    decreases l.len(),
{
    reveal_with_fuel(bview_list, 3);
    if l.len() == 0 {
        assert(l.push(x).drop_first() =~= Seq::<Bencode>::empty());
        assert(l.push(x)[0] == x);
        assert(bview_list(l.push(x)) =~= bview_list(l) + seq![bview(x)]);
    } else {
        assert(l.push(x).drop_first() =~= l.drop_first().push(x));
        lemma_bview_list_push(l.drop_first(), x);
        assert(l.push(x)[0] == l[0]);
        assert(bview_list(l.push(x)) == seq![bview(l[0])] + bview_list(l.drop_first().push(x)));
        assert(bview_list(l) == seq![bview(l[0])] + bview_list(l.drop_first()));
        assert(bview_list(l.push(x)) =~= bview_list(l) + seq![bview(x)]);
    }
}

pub proof fn lemma_bview_pairs_push(d: Seq<(Vec<u8>, Bencode)>, x: (Vec<u8>, Bencode))
    ensures
        bview_pairs(d.push(x)) == bview_pairs(d) + seq![(x.0@, bview(x.1))],
    decreases d.len(),
{
    reveal_with_fuel(bview_pairs, 3);
    if d.len() == 0 {
        assert(d.push(x).drop_first() =~= Seq::<(Vec<u8>, Bencode)>::empty());
        assert(d.push(x)[0] == x);
        assert(bview_pairs(d.push(x)) =~= bview_pairs(d) + seq![(x.0@, bview(x.1))]);
    } else {
        assert(d.push(x).drop_first() =~= d.drop_first().push(x));
        lemma_bview_pairs_push(d.drop_first(), x);
        assert(d.push(x)[0] == d[0]);
        assert(bview_pairs(d.push(x)) == seq![(d[0].0@, bview(d[0].1))] + bview_pairs(
            d.drop_first().push(x),
        ));
        assert(bview_pairs(d) == seq![(d[0].0@, bview(d[0].1))] + bview_pairs(d.drop_first()));
        assert(bview_pairs(d.push(x)) =~= bview_pairs(d) + seq![(x.0@, bview(x.1))]);
    }
}

/// Reads the strict integer spelled between `i` and `e`.
fn parse_int_at(bytes: &[u8], pos: usize) -> (r: Result<(Bencode, usize), BitTorrentError>)
    requires
        pos < bytes@.len(),
        bytes@[pos as int] == 0x69,
    ensures
        match r {
            Ok(p) => parse_at(bytes@, pos as int) == Some((p.0@, p.1 as int)) && pos < p.1
                <= bytes@.len(),
            Err(e) => parse_at(bytes@, pos as int) is None && e
                == BitTorrentError::BencodeMalformed,
        },
{
    let ghost b = bytes@;
    let blen: usize = bytes.len();
    // Find the closing 'e'.
    let mut j: usize = pos + 1;
    while j < bytes.len() && bytes[j] != 0x65
        invariant
            pos + 1 <= j <= b.len(),
            b == bytes@,
            forall|k: int| pos + 1 <= k < j ==> b[k] != 0x65,
        decreases b.len() - j,
    {
        j = j + 1;
    }
    proof {
        lemma_find_char_props(b, pos as int + 1, 0x65);
    }
    if j == bytes.len() {
        return Err(BitTorrentError::BencodeMalformed);
    }
    proof {
        lemma_find_char_first(b, pos as int + 1, 0x65, j as int);
    }
    let s: usize = pos + 1;
    let neg = bytes[s] == 0x2d;
    let ds: usize = if neg {
        s + 1
    } else {
        s
    };
    if ds >= j {
        return Err(BitTorrentError::BencodeMalformed);
    }
    // Every byte of the run must be a digit.
    let mut k: usize = ds;
    let mut ok = true;
    proof {
        assert(all_digits_range(b, ds as int, ds as int));
    }
    while k < j
        invariant
            ds <= k <= j,
            j < b.len(),
            b == bytes@,
            ok == all_digits_range(b, ds as int, k as int),
        decreases j - k,
    {
        let c = bytes[k];
        let good = 0x30 <= c && c <= 0x39;
        proof {
            if ok && good {
                assert forall|m: int| ds <= m < k + 1 implies is_digit(#[trigger] b[m]) by {}
            }
            if !good {
                assert(!is_digit(b[k as int]));
            }
        }
        ok = ok && good;
        k = k + 1;
    }
    if !ok {
        assert(!all_digits_range(b, ds as int, j as int));
        return Err(BitTorrentError::BencodeMalformed);
    }
    assert(all_digits_range(b, ds as int, j as int));
    if bytes[ds] == 0x30 && (neg || j - ds > 1) {
        return Err(BitTorrentError::BencodeMalformed);
    }
    proof {
        lemma_digits_val_bounds(b, ds as int, j as int);
        reveal_with_fuel(pow10, 21);
    }
    if j - ds > 19 {
        proof {
            lemma_pow10_mono(19, (j - ds - 1) as nat);
            assert(digits_val(b, ds as int, j as int) >= pow10((j - ds - 1) as nat));
            assert(int_run_val(b, pos as int + 1, j as int) > 0x7fffffffffffffff
                || int_run_val(b, pos as int + 1, j as int) < -0x8000000000000000);
        }
        return Err(BitTorrentError::BencodeMalformed);
    }
    // Accumulate the magnitude; at most nineteen digits fit well in u64.
    let mut val: u64 = 0;
    let mut m: usize = ds;
    while m < j
        invariant
            ds <= m <= j,
            j < b.len(),
            j - ds <= 19,
            b == bytes@,
            all_digits_range(b, ds as int, j as int),
            val == digits_val(b, ds as int, m as int),
            0 <= val < pow10((m - ds) as nat),
        decreases j - m,
    {
        proof {
            reveal_with_fuel(pow10, 21);
            lemma_pow10_mono((m - ds + 1) as nat, 19);
        }
        val = val * 10 + ((bytes[m] - 0x30) as u64);
        m = m + 1;
    }
    if neg {
        if val > 0x8000000000000000u64 {
            return Err(BitTorrentError::BencodeMalformed);
        }
        let iv: i64 = (-(val as i128)) as i64;
        assert(int_run_val(b, s as int, j as int) == -(val as int));
        Ok((Bencode::Int(iv), j + 1))
    } else {
        if val > 0x7fffffffffffffffu64 {
            return Err(BitTorrentError::BencodeMalformed);
        }
        assert(int_run_val(b, s as int, j as int) == val as int);
        Ok((Bencode::Int(val as i64), j + 1))
    }
}

pub proof fn lemma_pow10_mono(a: nat, c: nat)
    requires
        a <= c,
    ensures
        pow10(a) <= pow10(c),
    decreases c,
{
    if a < c {
        lemma_pow10_mono(a, (c - 1) as nat);
        lemma_pow10_pos((c - 1) as nat);
    }
}

/// Reads a length-prefixed byte string.
fn parse_str_at(bytes: &[u8], pos: usize) -> (r: Result<(Bencode, usize), BitTorrentError>)
    requires
        pos < bytes@.len(),
        is_digit(bytes@[pos as int]),
    ensures
        match r {
            Ok(p) => parse_at(bytes@, pos as int) == Some((p.0@, p.1 as int)) && pos < p.1
                <= bytes@.len(),
            Err(e) => parse_at(bytes@, pos as int) is None && e
                == BitTorrentError::BencodeMalformed,
        },
{
    let ghost b = bytes@;
    let blen: usize = bytes.len();
    // Scan the digit run.
    let mut j: usize = pos;
    while j < bytes.len() && bytes[j] >= 0x30 && bytes[j] <= 0x39
        invariant
            pos <= j <= b.len(),
            b == bytes@,
            forall|k: int| pos <= k < j ==> is_digit(#[trigger] b[k]),
        decreases b.len() - j,
    {
        j = j + 1;
    }
    proof {
        lemma_find_char_props(b, pos as int, 0x3a);
    }
    if j == bytes.len() || bytes[j] != 0x3a {
        // No colon ends the digit run: either none exists, or something
        // other than a digit stands before the first one.
        proof {
            let c = find_char(b, pos as int, 0x3a);
            if c >= 0 {
                assert(j < b.len() ==> !is_digit(b[j as int]));
                assert(c > j);
                assert(!all_digits_range(b, pos as int, c));
            }
        }
        return Err(BitTorrentError::BencodeMalformed);
    }
    proof {
        lemma_find_char_first(b, pos as int, 0x3a, j as int);
    }
    if bytes[pos] == 0x30 && j - pos > 1 {
        return Err(BitTorrentError::BencodeMalformed);
    }
    proof {
        lemma_digits_val_bounds(b, pos as int, j as int);
        reveal_with_fuel(pow10, 22);
    }
    if j - pos > 20 {
        // At least ten to the twentieth bytes could never fit in memory.
        proof {
            lemma_pow10_mono(20, (j - pos - 1) as nat);
        }
        return Err(BitTorrentError::BencodeMalformed);
    }
    // The length fits twenty digits, so u128 holds it exactly.
    let mut n: u128 = 0;
    let mut m: usize = pos;
    while m < j
        invariant
            pos <= m <= j,
            j < b.len(),
            j - pos <= 20,
            b == bytes@,
            all_digits_range(b, pos as int, j as int),
            n == digits_val(b, pos as int, m as int),
            0 <= n < pow10((m - pos) as nat),
        decreases j - m,
    {
        proof {
            reveal_with_fuel(pow10, 22);
            lemma_pow10_mono((m - pos + 1) as nat, 20);
        }
        n = n * 10 + ((bytes[m] - 0x30) as u128);
        m = m + 1;
    }
    if (j as u128) + 1 + n > bytes.len() as u128 {
        return Err(BitTorrentError::BencodeMalformed);
    }
    let n_us: usize = n as usize;
    let start = j + 1;
    let end = start + n_us;
    let body = vstd::slice::slice_to_vec(vstd::slice::slice_subrange(bytes, start, end));
    let r = Bencode::Str(body);
    assert(r@ == BencodeView::Str(b.subrange(start as int, end as int)));
    Ok((r, end))
}

impl Bencode {
    /// Decodes the value standing at the start of the input; trailing
    /// bytes are ignored.  Returns a value exactly when `bdecode` says
    /// one stands there.
    pub fn parse(input: &[u8]) -> (r: Result<Bencode, BitTorrentError>)
        ensures
            match r {
                Ok(v) => bdecode(input@) == Some(v@),
                Err(e) => bdecode(input@) is None && e == BitTorrentError::BencodeMalformed,
            },
    {
        match Self::parse_prefix(input) {
            Ok((v, _)) => Ok(v),
            Err(e) => Err(e),
        }
    }

    /// Decodes the value standing at the start of the input and says how
    /// many bytes it took, so a caller can pick up what follows.
    pub fn parse_prefix(input: &[u8]) -> (r: Result<(Bencode, usize), BitTorrentError>)
        ensures
            match r {
                Ok(p) => parse_at(input@, 0) == Some((p.0@, p.1 as int)) && 0 < p.1
                    <= input@.len(),
                Err(e) => parse_at(input@, 0) is None && e == BitTorrentError::BencodeMalformed,
            },
    {
        parse_value_at(input, 0)
    }
}

/// Decodes the value standing at `pos`.
pub fn parse_value_at(bytes: &[u8], pos: usize) -> (r: Result<(Bencode, usize), BitTorrentError>)
    requires
        pos <= bytes@.len(),
    ensures
        match r {
            Ok(p) => parse_at(bytes@, pos as int) == Some((p.0@, p.1 as int)) && pos < p.1
                <= bytes@.len(),
            Err(e) => parse_at(bytes@, pos as int) is None && e
                == BitTorrentError::BencodeMalformed,
        },
    decreases bytes@.len() - pos, 0int,
{
    let ghost b = bytes@;
    if pos >= bytes.len() {
        return Err(BitTorrentError::BencodeMalformed);
    }
    let c = bytes[pos];
    if c == 0x69 {
        parse_int_at(bytes, pos)
    } else if c == 0x6c {
        let mut elems: Vec<Bencode> = Vec::new();
        let mut p: usize = pos + 1;
        proof {
            assert(bview_list(elems@) =~= Seq::<BencodeView>::empty());
        }
        loop
            invariant
                pos < p <= b.len() + 1,
                p <= b.len() + 1,
                pos < b.len(),
                b == bytes@,
                b[pos as int] == 0x6c,
                p > pos,
                (match items_at(b, p as int) {
                    None => items_at(b, pos as int + 1) is None,
                    Some((vs, e)) => items_at(b, pos as int + 1) == Some(
                        (bview_list(elems@) + vs, e),
                    ),
                }),
            decreases b.len() - p,
        {
            if p >= bytes.len() {
                assert(items_at(b, p as int) is None);
                return Err(BitTorrentError::BencodeMalformed);
            }
            if bytes[p] == 0x65 {
                proof {
                    assert(items_at(b, p as int) == Some(
                        (Seq::<BencodeView>::empty(), p as int + 1),
                    ));
                    assert(bview_list(elems@) + Seq::<BencodeView>::empty() =~= bview_list(
                        elems@,
                    ));
                }
                let out = Bencode::List(elems);
                return Ok((out, p + 1));
            }
            let (item, np) = match parse_value_at(bytes, p) {
                Ok(x) => x,
                Err(e) => {
                    assert(items_at(b, p as int) is None);
                    return Err(e);
                },
            };
            let ghost old_elems = elems@;
            let ghost old_p = p as int;
            elems.push(item);
            p = np;
            proof {
                lemma_bview_list_push(old_elems, item);
                assert(elems@ =~= old_elems.push(item));
                match items_at(b, p as int) {
                    None => {
                        assert(items_at(b, old_p) is None);
                    },
                    Some((vs, e)) => {
                        assert(items_at(b, old_p) == Some((seq![bview(item)] + vs, e)));
                        assert(bview_list(elems@) + vs =~= bview_list(old_elems) + (seq![
                            bview(item),
                        ] + vs));
                    },
                }
            }
        }
    } else if c == 0x64 {
        let mut entries: Vec<(Vec<u8>, Bencode)> = Vec::new();
        let mut p: usize = pos + 1;
        proof {
            assert(bview_pairs(entries@) =~= Seq::<(Seq<u8>, BencodeView)>::empty());
        }
        loop
            invariant
                pos < p <= b.len() + 1,
                pos < b.len(),
                b == bytes@,
                b[pos as int] == 0x64,
                (match pairs_at(b, p as int) {
                    None => pairs_at(b, pos as int + 1) is None,
                    Some((ps, e)) => pairs_at(b, pos as int + 1) == Some(
                        (bview_pairs(entries@) + ps, e),
                    ),
                }),
            decreases b.len() - p,
        {
            if p >= bytes.len() {
                assert(pairs_at(b, p as int) is None);
                return Err(BitTorrentError::BencodeMalformed);
            }
            if bytes[p] == 0x65 {
                proof {
                    assert(pairs_at(b, p as int) == Some(
                        (Seq::<(Seq<u8>, BencodeView)>::empty(), p as int + 1),
                    ));
                    assert(bview_pairs(entries@) + Seq::<(Seq<u8>, BencodeView)>::empty()
                        =~= bview_pairs(entries@));
                }
                let out = Bencode::Dict(entries);
                return Ok((out, p + 1));
            }
            let (key_val, np1) = match parse_value_at(bytes, p) {
                Ok(x) => x,
                Err(e) => {
                    assert(pairs_at(b, p as int) is None);
                    return Err(e);
                },
            };
            let key: Vec<u8> = match key_val {
                Bencode::Str(k) => k,
                _ => {
                    assert(pairs_at(b, p as int) is None);
                    return Err(BitTorrentError::BencodeMalformed);
                },
            };
            let (value, np2) = match parse_value_at(bytes, np1) {
                Ok(x) => x,
                Err(e) => {
                    assert(pairs_at(b, p as int) is None);
                    return Err(e);
                },
            };
            let ghost old_entries = entries@;
            let ghost old_p = p as int;
            let ghost kview = key@;
            entries.push((key, value));
            p = np2;
            proof {
                lemma_bview_pairs_push(old_entries, (entries@[entries@.len() - 1]));
                assert(entries@ =~= old_entries.push(entries@[entries@.len() - 1]));
                match pairs_at(b, p as int) {
                    None => {
                        assert(pairs_at(b, old_p) is None);
                    },
                    Some((ps, e)) => {
                        assert(pairs_at(b, old_p) == Some((seq![(kview, bview(value))] + ps, e)));
                        assert(bview_pairs(entries@) + ps =~= bview_pairs(old_entries) + (seq![
                            (kview, bview(value)),
                        ] + ps));
                    },
                }
            }
        }
    } else if c >= 0x30 && c <= 0x39 {
        parse_str_at(bytes, pos)
    } else {
        return Err(BitTorrentError::BencodeMalformed);
    }
}

/// One byte of a run that stands as a subrange of a longer one.
proof fn lemma_at(b: Seq<u8>, pos: int, e: Seq<u8>, j: int)
    requires
        0 <= pos,
        0 <= j < e.len(),
        pos + e.len() <= b.len(),
        b.subrange(pos, pos + e.len()) == e,
    ensures
        b[pos + j] == e[j],
{
    assert(b.subrange(pos, pos + e.len())[j] == e[j]);
}

/// The digits of a number: at least one, every one a digit, the first
/// not zero unless the number is zero.
proof fn lemma_dec_digits_props(n: nat)
    ensures
        dec_digits(n).len() >= 1,
        forall|j: int| 0 <= j < dec_digits(n).len() ==> is_digit(#[trigger] dec_digits(n)[j]),
        n >= 1 ==> dec_digits(n)[0] != 0x30,
        n == 0 ==> dec_digits(n) == seq![0x30u8],
    decreases n,
{
    if n < 10 {
        assert(dec_digits(n) == seq![(0x30 + n) as u8]);
        if n == 0 {
            assert(dec_digits(n) =~= seq![0x30u8]);
        }
    } else {
        lemma_dec_digits_props(n / 10);
        assert(dec_digits(n) == dec_digits(n / 10).push((0x30 + n % 10) as u8));
    }
}

/// Reading back the digits of a number gives the number.
proof fn lemma_digits_val_inverse(b: Seq<u8>, off: int, n: nat)
    requires
        0 <= off,
        off + dec_digits(n).len() <= b.len(),
        b.subrange(off, off + dec_digits(n).len()) == dec_digits(n),
    ensures
        digits_val(b, off, off + dec_digits(n).len()) == n,
    decreases n,
{
    let w = dec_digits(n).len() as int;
    if n < 10 {
        assert(b[off] == b.subrange(off, off + 1)[0]);
        assert(digits_val(b, off, off) == 0);
        assert(digits_val(b, off, off + 1) == digits_val(b, off, off) * 10 + (b[off] - 0x30));
    } else {
        lemma_dec_digits_props(n / 10);
        assert(dec_digits(n) == dec_digits(n / 10).push((0x30 + n % 10) as u8));
        assert(b.subrange(off, off + w - 1) =~= dec_digits(n / 10)) by {
            assert forall|j: int| 0 <= j < w - 1 implies #[trigger] b.subrange(
                off,
                off + w - 1,
            )[j] == dec_digits(n / 10)[j] by {
                assert(b.subrange(off, off + w)[j] == dec_digits(n)[j]);
            }
        }
        lemma_digits_val_inverse(b, off, n / 10);
        assert(b[off + w - 1] == b.subrange(off, off + w)[w - 1]);
        assert(b[off + w - 1] == (0x30 + n % 10) as u8);
        assert(digits_val(b, off, off + w) == digits_val(b, off, off + w - 1) * 10 + (b[off + w
            - 1] - 0x30));
    }
}

/// Every encoding is non-empty, opens with its kind's marker, and never
/// opens with the terminator `e`.
proof fn lemma_benc_first(v: BencodeView)
    ensures
        benc(v).len() >= 1,
        benc(v)[0] != 0x65,
        match v {
            BencodeView::Str(s) => is_digit(benc(v)[0]),
            BencodeView::Int(_) => benc(v)[0] == 0x69,
            BencodeView::List(_) => benc(v)[0] == 0x6c,
            BencodeView::Dict(_) => benc(v)[0] == 0x64,
        },
{
    match v {
        BencodeView::Str(s) => {
            lemma_dec_digits_props(s.len());
            assert(benc(v)[0] == dec_digits(s.len())[0]);
        },
        BencodeView::Int(_) => {},
        BencodeView::List(_) => {},
        BencodeView::Dict(_) => {},
    }
}

/// A byte-string's encoding standing at `pos` parses back to the string.
proof fn lemma_parse_benc_str(b: Seq<u8>, pos: int, s: Seq<u8>)
    requires
        0 <= pos,
        pos + benc(BencodeView::Str(s)).len() <= b.len(),
        b.subrange(pos, pos + benc(BencodeView::Str(s)).len()) == benc(BencodeView::Str(s)),
    ensures
        parse_at(b, pos) == Some(
            (BencodeView::Str(s), pos + benc(BencodeView::Str(s)).len()),
        ),
{
    let e = benc(BencodeView::Str(s));
    let w = e.len() as int;
    let dl = dec_digits(s.len()).len() as int;
    lemma_dec_digits_props(s.len());
    assert forall|j: int| 0 <= j < w implies b[pos + j] == e[j] by {
        assert(b.subrange(pos, pos + w)[j] == e[j]);
    }
    assert forall|j: int| pos <= j < pos + dl implies is_digit(#[trigger] b[j]) by {
        assert(e[j - pos] == dec_digits(s.len())[j - pos]);
    }
    lemma_at(b, pos, e, dl);
    assert(b[pos + dl] == 0x3a);
    lemma_find_char_first(b, pos, 0x3a, pos + dl);
    assert(all_digits_range(b, pos, pos + dl));
    assert(b.subrange(pos, pos + dl) =~= dec_digits(s.len())) by {
        assert forall|j: int| 0 <= j < dl implies b.subrange(pos, pos + dl)[j] == dec_digits(
            s.len(),
        )[j] by {
            assert(b[pos + j] == e[j]);
        }
    }
    lemma_digits_val_inverse(b, pos, s.len());
    assert(b[pos] == dec_digits(s.len())[0]);
    if s.len() >= 1 {
        assert(b[pos] != 0x30);
    } else {
        assert(dl == 1);
    }
    assert(b.subrange(pos + dl + 1, pos + dl + 1 + s.len()) =~= s) by {
        assert forall|j: int| 0 <= j < s.len() implies b.subrange(
            pos + dl + 1,
            pos + dl + 1 + s.len(),
        )[j] == s[j] by {
            assert(b[pos + dl + 1 + j] == e[dl + 1 + j]);
            assert(e[dl + 1 + j] == s[j]);
        }
    }
}

/// An integer's encoding standing at `pos` parses back to the integer.
proof fn lemma_parse_benc_int(b: Seq<u8>, pos: int, i: i64)
    requires
        0 <= pos,
        pos + benc(BencodeView::Int(i)).len() <= b.len(),
        b.subrange(pos, pos + benc(BencodeView::Int(i)).len()) == benc(BencodeView::Int(i)),
    ensures
        parse_at(b, pos) == Some(
            (BencodeView::Int(i), pos + benc(BencodeView::Int(i)).len()),
        ),
{
    let e = benc(BencodeView::Int(i));
    let w = e.len() as int;
    let run = int_bytes(i as int);
    let rl = run.len() as int;
    let mag: nat = if i >= 0 {
        i as nat
    } else {
        (-(i as int)) as nat
    };
    lemma_dec_digits_props(mag);
    assert forall|j: int| 0 <= j < w implies b[pos + j] == e[j] by {
        assert(b.subrange(pos, pos + w)[j] == e[j]);
    }
    lemma_at(b, pos, e, 0);
    assert(b[pos] == 0x69);
    lemma_at(b, pos, e, 1 + rl);
    assert(b[pos + 1 + rl] == 0x65);
    // No byte of the run is the terminator.
    assert forall|j: int| pos + 1 <= j < pos + 1 + rl implies b[j] != 0x65 by {
        let k = j - pos - 1;
        assert(e[j - pos] == run[k]);
        if i >= 0 {
            assert(run[k] == dec_digits(mag)[k]);
            assert(is_digit(run[k]));
        } else {
            if k == 0 {
                assert(run[k] == 0x2d);
            } else {
                assert(run[k] == dec_digits(mag)[k - 1]);
                assert(is_digit(run[k]));
            }
        }
    }
    lemma_find_char_first(b, pos + 1, 0x65, pos + 1 + rl);
    let s = pos + 1;
    if i >= 0 {
        assert(b.subrange(s, s + rl) =~= dec_digits(mag)) by {
            assert forall|j: int| 0 <= j < rl implies b.subrange(s, s + rl)[j] == dec_digits(
                mag,
            )[j] by {
                assert(b[s + j] == e[1 + j]);
            }
        }
        lemma_digits_val_inverse(b, s, mag);
        assert(b[s] == dec_digits(mag)[0]);
        assert(is_digit(b[s]));
        assert(b[s] != 0x2d);
        assert(all_digits_range(b, s, s + rl)) by {
            assert forall|j: int| s <= j < s + rl implies is_digit(#[trigger] b[j]) by {
                assert(b[j] == dec_digits(mag)[j - s]);
            }
        }
        if mag >= 1 {
            assert(b[s] != 0x30);
        } else {
            assert(rl == 1);
        }
        assert(valid_int_run(b, s, s + rl));
        assert(int_run_val(b, s, s + rl) == i as int);
    } else {
        lemma_at(b, pos, e, 1);
        assert(e[1] == run[0]);
        assert(b[s] == 0x2d);
        assert(mag >= 1);
        assert(b.subrange(s + 1, s + rl) =~= dec_digits(mag)) by {
            assert forall|j: int| 0 <= j < rl - 1 implies b.subrange(s + 1, s + rl)[j]
                == dec_digits(mag)[j] by {
                assert(b[s + 1 + j] == e[2 + j]);
                assert(e[2 + j] == run[1 + j]);
            }
        }
        lemma_digits_val_inverse(b, s + 1, mag);
        assert(b[s + 1] == dec_digits(mag)[0]);
        assert(b[s + 1] != 0x30);
        assert(all_digits_range(b, s + 1, s + rl)) by {
            assert forall|j: int| s + 1 <= j < s + rl implies is_digit(#[trigger] b[j]) by {
                assert(b[j] == dec_digits(mag)[j - s - 1]);
            }
        }
        assert(valid_int_run(b, s, s + rl));
        assert(int_run_val(b, s, s + rl) == -(mag as int));
        assert(int_run_val(b, s, s + rl) == i as int);
    }
}

/// A value's encoding standing at `pos` parses back to the value and
/// consumes exactly the encoding: the codec round-trips.
pub proof fn lemma_parse_benc(b: Seq<u8>, pos: int, v: BencodeView)
    requires
        0 <= pos,
        pos + benc(v).len() <= b.len(),
        b.subrange(pos, pos + benc(v).len()) == benc(v),
    ensures
        parse_at(b, pos) == Some((v, pos + benc(v).len())),
    decreases v, 0int,
{
    let e = benc(v);
    let w = e.len() as int;
    assert forall|j: int| 0 <= j < w implies b[pos + j] == e[j] by {
        assert(b.subrange(pos, pos + w)[j] == e[j]);
    }
    match v {
        BencodeView::Str(s) => {
            lemma_parse_benc_str(b, pos, s);
        },
        BencodeView::Int(i) => {
            lemma_parse_benc_int(b, pos, i);
        },
        BencodeView::List(l) => {
            lemma_at(b, pos, e, 0);
            assert(b[pos] == 0x6c);
            assert(b.subrange(pos + 1, pos + 1 + benc_seq(l).len()) =~= benc_seq(l)) by {
                assert forall|j: int| 0 <= j < benc_seq(l).len() implies b.subrange(
                    pos + 1,
                    pos + 1 + benc_seq(l).len(),
                )[j] == benc_seq(l)[j] by {
                    assert(b[pos + 1 + j] == e[1 + j]);
                }
            }
            lemma_at(b, pos, e, 1 + benc_seq(l).len() as int);
            assert(b[pos + 1 + benc_seq(l).len()] == 0x65);
            lemma_items_benc(b, pos + 1, l);
        },
        BencodeView::Dict(d) => {
            lemma_at(b, pos, e, 0);
            assert(b[pos] == 0x64);
            assert(b.subrange(pos + 1, pos + 1 + benc_pairs(d).len()) =~= benc_pairs(d)) by {
                assert forall|j: int| 0 <= j < benc_pairs(d).len() implies b.subrange(
                    pos + 1,
                    pos + 1 + benc_pairs(d).len(),
                )[j] == benc_pairs(d)[j] by {
                    assert(b[pos + 1 + j] == e[1 + j]);
                }
            }
            lemma_at(b, pos, e, 1 + benc_pairs(d).len() as int);
            assert(b[pos + 1 + benc_pairs(d).len()] == 0x65);
            lemma_pairs_benc(b, pos + 1, d);
        },
    }
}

/// A run of encoded values followed by `e` reads back as those values.
proof fn lemma_items_benc(b: Seq<u8>, pos: int, l: Seq<BencodeView>)
    requires
        0 <= pos,
        pos + benc_seq(l).len() + 1 <= b.len(),
        b.subrange(pos, pos + benc_seq(l).len()) == benc_seq(l),
        b[pos + benc_seq(l).len()] == 0x65,
    ensures
        items_at(b, pos) == Some((l, pos + benc_seq(l).len() + 1)),
    decreases l, 1int,
{
    if l.len() == 0 {
        assert(b[pos] == 0x65);
        assert(items_at(b, pos) == Some((Seq::<BencodeView>::empty(), pos + 1)));
        assert(l =~= Seq::<BencodeView>::empty());
    } else {
        let head = benc(l[0]);
        let hl = head.len() as int;
        let rest = benc_seq(l.drop_first());
        assert(benc_seq(l) == head + rest);
        assert forall|j: int| 0 <= j < benc_seq(l).len() implies b[pos + j] == benc_seq(l)[j] by {
            assert(b.subrange(pos, pos + benc_seq(l).len())[j] == benc_seq(l)[j]);
        }
        lemma_benc_first(l[0]);
        lemma_at(b, pos, benc_seq(l), 0);
        assert(benc_seq(l)[0] == head[0]);
        assert(b[pos] == head[0]);
        assert(b[pos] != 0x65);
        assert(b.subrange(pos, pos + hl) =~= head) by {
            assert forall|j: int| 0 <= j < hl implies b.subrange(pos, pos + hl)[j] == head[j] by {
                assert(b[pos + j] == benc_seq(l)[j]);
            }
        }
        assert(decreases_to!(l => l[0]));
        lemma_parse_benc(b, pos, l[0]);
        let np = pos + hl;
        assert(b.subrange(np, np + rest.len()) =~= rest) by {
            assert forall|j: int| 0 <= j < rest.len() implies b.subrange(np, np + rest.len())[j]
                == rest[j] by {
                assert(b[np + j] == benc_seq(l)[hl + j]);
            }
        }
        assert(b[np + rest.len()] == 0x65);
        lemma_items_benc(b, np, l.drop_first());
        assert(seq![l[0]] + l.drop_first() =~= l);
    }
}

/// A run of encoded entries followed by `e` reads back as those entries.
proof fn lemma_pairs_benc(b: Seq<u8>, pos: int, d: Seq<(Seq<u8>, BencodeView)>)
    requires
        0 <= pos,
        pos + benc_pairs(d).len() + 1 <= b.len(),
        b.subrange(pos, pos + benc_pairs(d).len()) == benc_pairs(d),
        b[pos + benc_pairs(d).len()] == 0x65,
    ensures
        pairs_at(b, pos) == Some((d, pos + benc_pairs(d).len() + 1)),
    decreases d, 1int,
{
    if d.len() == 0 {
        assert(b[pos] == 0x65);
        assert(pairs_at(b, pos) == Some((Seq::<(Seq<u8>, BencodeView)>::empty(), pos + 1)));
        assert(d =~= Seq::<(Seq<u8>, BencodeView)>::empty());
    } else {
        let key = d[0].0;
        let kenc = dec_digits(key.len()) + seq![0x3au8] + key;
        let venc = benc(d[0].1);
        let kl = kenc.len() as int;
        let vl = venc.len() as int;
        let rest = benc_pairs(d.drop_first());
        assert(benc_pairs(d) == kenc + venc + rest);
        assert forall|j: int| 0 <= j < benc_pairs(d).len() implies b[pos + j] == benc_pairs(
            d,
        )[j] by {
            assert(b.subrange(pos, pos + benc_pairs(d).len())[j] == benc_pairs(d)[j]);
        }
        lemma_dec_digits_props(key.len());
        lemma_at(b, pos, benc_pairs(d), 0);
        assert(benc_pairs(d)[0] == kenc[0]);
        assert(b[pos] == kenc[0]);
        assert(b[pos] == dec_digits(key.len())[0]);
        assert(is_digit(b[pos]));
        assert(b[pos] != 0x65);
        assert(kenc =~= benc(BencodeView::Str(key)));
        assert(b.subrange(pos, pos + kl) =~= kenc) by {
            assert forall|j: int| 0 <= j < kl implies b.subrange(pos, pos + kl)[j] == kenc[j] by {
                assert(b[pos + j] == benc_pairs(d)[j]);
            }
        }
        lemma_parse_benc_str(b, pos, key);
        let np1 = pos + kl;
        assert(b.subrange(np1, np1 + vl) =~= venc) by {
            assert forall|j: int| 0 <= j < vl implies b.subrange(np1, np1 + vl)[j] == venc[j] by {
                assert(b[np1 + j] == benc_pairs(d)[kl + j]);
            }
        }
        assert(decreases_to!(d => d[0]));
        assert(decreases_to!(d[0] => d[0].1));
        lemma_parse_benc(b, np1, d[0].1);
        let np2 = np1 + vl;
        assert(b.subrange(np2, np2 + rest.len()) =~= rest) by {
            assert forall|j: int| 0 <= j < rest.len() implies b.subrange(np2, np2 + rest.len())[j]
                == rest[j] by {
                assert(b[np2 + j] == benc_pairs(d)[kl + vl + j]);
            }
        }
        assert(b[np2 + rest.len()] == 0x65);
        lemma_pairs_benc(b, np2, d.drop_first());
        assert(seq![(key, d[0].1)] + d.drop_first() =~= d);
    }
}

/// Decoding an encoding gives the value back, whatever the value and
/// whatever order its dictionaries hold their entries in.
pub proof fn lemma_bencode_round_trip(v: BencodeView)
    ensures
        bdecode(benc(v)) == Some(v),
{
    let b = benc(v);
    lemma_benc_first(v);
    assert(b.subrange(0, b.len() as int) =~= b);
    lemma_parse_benc(b, 0, v);
}

/// What the canonical encoder emits is canonical and decodes back: the
/// written value's dictionaries all carry their keys in order, and
/// parsing the bytes yields the canonical form again.
pub proof fn lemma_canonical_encoding(v: BencodeView)
    ensures
        dicts_ordered(canon_spec(v)),
        bdecode(benc(canon_spec(v))) == Some(canon_spec(v)),
{
    lemma_canon_ordered(v);
    lemma_bencode_round_trip(canon_spec(v));
}

/// For a value already in canonical form — dictionaries strictly sorted
/// by raw key bytes, as `dicts_sorted` says — the canonical encoder
/// round-trips to the very same value.
pub proof fn lemma_canonical_round_trip(v: BencodeView)
    requires
        dicts_sorted(v),
    ensures
        bdecode(benc(canon_spec(v))) == Some(v),
{
    lemma_canon_of_sorted(v);
    lemma_bencode_round_trip(v);
}

/// No two values share an encoding: the encoder is injective, so the
/// canonical spelling of a value is the only spelling of it.
pub proof fn lemma_benc_injective(v1: BencodeView, v2: BencodeView)
    requires
        benc(v1) == benc(v2),
    ensures
        v1 == v2,
{
    lemma_bencode_round_trip(v1);
    lemma_bencode_round_trip(v2);
}

/// Whether one byte run orders strictly before another, by raw bytes.
pub fn bytes_lt(a: &[u8], b: &[u8]) -> (r: bool)
    ensures
        r == lex_lt(a@, b@),
{
    let alen = a.len();
    let blen = b.len();
    let n = if alen < blen {
        alen
    } else {
        blen
    };
    let mut i: usize = 0;
    while i < n
        invariant
            i <= n,
            n <= a@.len(),
            n <= b@.len(),
            forall|j: int| 0 <= j < i ==> a@[j] == b@[j],
        decreases n - i,
    {
        if a[i] != b[i] {
            proof {
                lemma_lex_lt_skip(a@, b@, i as int);
            }
            return a[i] < b[i];
        }
        i = i + 1;
    }
    proof {
        lemma_lex_lt_skip(a@, b@, n as int);
    }
    alen < blen
}

/// Places one entry among already-sorted entries, at its position.
fn insert_sorted_exec(acc: &mut Vec<(Vec<u8>, Bencode)>, key: Vec<u8>, val: Bencode)
    ensures
        bview_pairs(final(acc)@) == sorted_insert(
            bview_pairs(old(acc)@),
            (key@, val@),
        ),
{
    let ghost s = bview_pairs(acc@);
    let ghost p: (Seq<u8>, BencodeView) = (key@, val@);
    proof {
        lemma_bview_pairs_props(acc@);
        lemma_insert_pos_props(s, p);
    }
    let mut j: usize = 0;
    loop
        invariant
            j <= acc@.len(),
            s == bview_pairs(acc@),
            s.len() == acc@.len(),
            p.0 == key@,
            forall|m: int| 0 <= m < j ==> !lex_lt(p.0, (#[trigger] s[m]).0),
        ensures
            j <= acc@.len(),
            s == bview_pairs(acc@),
            forall|m: int| 0 <= m < j ==> !lex_lt(p.0, (#[trigger] s[m]).0),
            j < acc@.len() ==> lex_lt(p.0, s[j as int].0),
        decreases acc@.len() - j,
    {
        if j >= acc.len() {
            break ;
        }
        proof {
            lemma_bview_pairs_props(acc@);
            assert(s[j as int].0 == acc@[j as int].0@);
        }
        if bytes_lt(key.as_slice(), acc[j].0.as_slice()) {
            break ;
        }
        j = j + 1;
    }
    proof {
        let pos = insert_pos(s, p);
        if (j as int) < pos {
            assert(!lex_lt(p.0, s[j as int].0));
            assert(false);
        }
        if (j as int) > pos {
            assert(lex_lt(p.0, s[pos].0));
            assert(false);
        }
    }
    let ghost before = acc@;
    acc.insert(j, (key, val));
    proof {
        lemma_bview_pairs_props(acc@);
        lemma_bview_pairs_props(before);
        assert forall|m: int| 0 <= m < acc@.len() implies #[trigger] bview_pairs(acc@)[m] == (
        s.subrange(0, j as int) + seq![p] + s.subrange(j as int, s.len() as int))[m] by {
            if m < j {
                assert(acc@[m] == before[m]);
            } else if m == j {
                assert(acc@[m] == (key, val));
            } else {
                assert(acc@[m] == before[m - 1]);
            }
        }
        assert(bview_pairs(acc@) =~= s.subrange(0, j as int) + seq![p] + s.subrange(
            j as int,
            s.len() as int,
        ));
    }
}

/// The canonical form of a value, built bottom-up: values first, then
/// every dictionary's entries placed in key order.
fn canonicalize_value(v: &Bencode) -> (r: Bencode)
    ensures
        r@ == canon_spec(v@),
    decreases *v,
{
    match v {
        Bencode::Str(s) => Bencode::Str(crate::message::clone_bytes(s)),
        Bencode::Int(i) => Bencode::Int(*i),
        Bencode::List(l) => {
            let out = canonicalize_list(l);
            Bencode::List(out)
        },
        Bencode::Dict(d) => {
            let out = canonicalize_entries(d);
            Bencode::Dict(out)
        },
    }
}

fn canonicalize_list(l: &Vec<Bencode>) -> (r: Vec<Bencode>)
    ensures
        bview_list(r@) == canon_list(bview_list(l@)),
    decreases *l,
{
    let mut out: Vec<Bencode> = Vec::new();
    let mut i: usize = 0;
    while i < l.len()
        invariant
            i <= l@.len(),
            out@.len() == i,
            forall|j: int| 0 <= j < i ==> bview(#[trigger] out@[j]) == canon_spec(bview(l@[j])),
        decreases l@.len() - i,
    {
        proof {
            assert(decreases_to!(*l => l@));
            assert(decreases_to!(l@ => l@[i as int]));
        }
        let c = canonicalize_value(&l[i]);
        out.push(c);
        i = i + 1;
    }
    proof {
        lemma_bview_list_props(l@);
        lemma_bview_list_props(out@);
        lemma_canon_list_props(bview_list(l@));
        assert forall|j: int| 0 <= j < l@.len() implies bview_list(out@)[j] == canon_list(
            bview_list(l@),
        )[j] by {
            assert(bview_list(out@)[j] == bview(out@[j]));
            assert(bview_list(l@)[j] == bview(l@[j]));
            assert(canon_list(bview_list(l@))[j] == canon_spec(bview_list(l@)[j]));
        }
        assert(bview_list(out@) =~= canon_list(bview_list(l@)));
    }
    out
}

fn canonicalize_entries(d: &Vec<(Vec<u8>, Bencode)>) -> (r: Vec<(Vec<u8>, Bencode)>)
    ensures
        bview_pairs(r@) == sort_pairs(canon_pairs(bview_pairs(d@))),
    decreases *d,
{
    let ghost dv = bview_pairs(d@);
    let ghost cp = canon_pairs(dv);
    proof {
        lemma_bview_pairs_props(d@);
        lemma_canon_pairs_props(dv);
        assert(cp.take(0) =~= Seq::<(Seq<u8>, BencodeView)>::empty());
    }
    let mut out: Vec<(Vec<u8>, Bencode)> = Vec::new();
    proof {
        assert(bview_pairs(out@) =~= Seq::<(Seq<u8>, BencodeView)>::empty());
        assert(sort_pairs(cp.take(0)) =~= Seq::<(Seq<u8>, BencodeView)>::empty());
    }
    let mut i: usize = 0;
    while i < d.len()
        invariant
            i <= d@.len(),
            dv == bview_pairs(d@),
            cp == canon_pairs(dv),
            cp.len() == d@.len(),
            dv.len() == d@.len(),
            bview_pairs(out@) == sort_pairs(cp.take(i as int)),
        decreases d@.len() - i,
    {
        proof {
            lemma_bview_pairs_props(d@);
            lemma_canon_pairs_props(dv);
            assert(decreases_to!(*d => d@));
            assert(decreases_to!(d@ => d@[i as int]));
            assert(decreases_to!(d@[i as int] => d@[i as int].1));
        }
        let k = crate::message::clone_bytes(&d[i].0);
        let cv = canonicalize_value(&d[i].1);
        proof {
            assert(dv[i as int] == (d@[i as int].0@, bview(d@[i as int].1)));
            assert(cp[i as int] == (dv[i as int].0, canon_spec(dv[i as int].1)));
            assert((k@, cv@) == cp[i as int]);
        }
        let ghost mid = bview_pairs(out@);
        insert_sorted_exec(&mut out, k, cv);
        proof {
            assert(cp.take(i as int + 1).drop_last() =~= cp.take(i as int));
            assert(cp.take(i as int + 1).last() == cp[i as int]);
            assert(sort_pairs(cp.take(i as int + 1)) == sorted_insert(
                sort_pairs(cp.take(i as int)),
                cp[i as int],
            ));
        }
        i = i + 1;
    }
    proof {
        assert(cp.take(d@.len() as int) =~= cp);
    }
    out
}

impl Bencode {
    /// The same data in canonical form: every dictionary's entries
    /// rearranged into key order, at every depth.
    pub fn canonicalize(&self) -> (r: Bencode)
        ensures
            r@ == canon_spec(self@),
    {
        canonicalize_value(self)
    }
}

/// Whether two byte runs hold the same bytes.
pub fn bytes_eq(a: &[u8], b: &[u8]) -> (r: bool)
    ensures
        r == (a@ == b@),
{
    if a.len() != b.len() {
        return false;
    }
    let mut i: usize = 0;
    while i < a.len()
        invariant
            i <= a@.len(),
            a@.len() == b@.len(),
            forall|j: int| 0 <= j < i ==> a@[j] == b@[j],
        decreases a@.len() - i,
    {
        if a[i] != b[i] {
            return false;
        }
        i = i + 1;
    }
    assert(a@ =~= b@);
    true
}

/// Whether a run of UTF-8 bytes is valid text; what std's checker says.
pub uninterp spec fn is_utf8(b: Seq<u8>) -> bool;

/// Relies on std::str::from_utf8: accepts exactly valid UTF-8, and the
/// accepted text is spelled by those very bytes.
#[verifier::external_body]
fn utf8_from(b: &[u8]) -> (r: Option<&str>)
    ensures
        r is Some <==> is_utf8(b@),
        r is Some ==> r->0.spec_bytes() == b@,
{
    std::str::from_utf8(b).ok()
}

/// The characters std's lossy converter reads out of a byte run,
/// replacing what is not UTF-8.
pub uninterp spec fn utf8_lossy_of(b: Seq<u8>) -> Seq<char>;

/// Relies on String::from_utf8_lossy: the characters depend on the bytes
/// alone.
#[verifier::external_body]
pub fn lossy_text(b: &[u8]) -> (r: String)
    ensures
        r@ == utf8_lossy_of(b@),
{
    String::from_utf8_lossy(b).into_owned()
}

/// The value a key maps to, later entries shadowing earlier ones.
pub open spec fn dict_lookup(d: Seq<(Seq<u8>, BencodeView)>, k: Seq<u8>) -> Option<BencodeView>
    decreases d.len(),
{
    if d.len() == 0 {
        None
    } else if d.last().0 == k {
        Some(d.last().1)
    } else {
        dict_lookup(d.drop_last(), k)
    }
}

proof fn lemma_dict_lookup_at(d: Seq<(Seq<u8>, BencodeView)>, k: Seq<u8>, i: int)
    requires
        0 <= i < d.len(),
        d[i].0 == k,
        forall|m: int| i < m < d.len() ==> (#[trigger] d[m]).0 != k,
    ensures
        dict_lookup(d, k) == Some(d[i].1),
    decreases d.len(),
{
    if i < d.len() - 1 {
        assert(d.drop_last()[i] == d[i]);
        lemma_dict_lookup_at(d.drop_last(), k, i);
    }
}

proof fn lemma_dict_lookup_none(d: Seq<(Seq<u8>, BencodeView)>, k: Seq<u8>)
    requires
        forall|m: int| 0 <= m < d.len() ==> (#[trigger] d[m]).0 != k,
    ensures
        dict_lookup(d, k) is None,
    decreases d.len(),
{
    if d.len() > 0 {
        lemma_dict_lookup_none(d.drop_last(), k);
    }
}

/// The value under a key among raw entries, later duplicates winning.
pub fn lookup_in<'x>(entries: &'x Vec<(Vec<u8>, Bencode)>, key: &[u8]) -> (r: Option<
    &'x Bencode,
>)
    ensures
        match r {
            Some(v) => dict_lookup(bview_pairs(entries@), key@) == Some(v@),
            None => dict_lookup(bview_pairs(entries@), key@) is None,
        },
{
    proof {
        lemma_bview_pairs_props(entries@);
    }
    let ghost dv = bview_pairs(entries@);
    let mut i: usize = entries.len();
    while i > 0
        invariant
            i <= entries@.len(),
            dv == bview_pairs(entries@),
            dv.len() == entries@.len(),
            forall|m: int| i <= m < dv.len() ==> (#[trigger] dv[m]).0 != key@,
        decreases i,
    {
        i = i - 1;
        proof {
            lemma_bview_pairs_props(entries@);
        }
        if bytes_eq(entries[i].0.as_slice(), key) {
            proof {
                lemma_dict_lookup_at(dv, key@, i as int);
            }
            return Some(&entries[i].1);
        }
    }
    proof {
        lemma_dict_lookup_none(dv, key@);
    }
    None
}

/// A dictionary taken out of a bencode value, entries in wire order.
#[derive(Debug, PartialEq)]
pub struct BencodeDict {
    entries: Vec<(Vec<u8>, Bencode)>,
}

impl View for BencodeDict {
    type V = Seq<(Seq<u8>, BencodeView)>;

    closed spec fn view(&self) -> Seq<(Seq<u8>, BencodeView)> {
        bview_pairs(self.entries@)
    }
}

impl BencodeDict {
    /// The position of the last entry holding the key, if any.
    fn find_last(&self, key: &[u8]) -> (r: Option<usize>)
        ensures
            match r {
                Some(i) => i < self@.len() && self@[i as int].0 == key@ && dict_lookup(self@, key@)
                    == Some(self@[i as int].1),
                None => dict_lookup(self@, key@) is None,
            },
    {
        proof {
            lemma_bview_pairs_props(self.entries@);
        }
        let mut i: usize = self.entries.len();
        while i > 0
            invariant
                i <= self.entries@.len(),
                forall|m: int| i <= m < self@.len() ==> (#[trigger] self@[m]).0 != key@,
            decreases i,
        {
            i = i - 1;
            proof {
                lemma_bview_pairs_props(self.entries@);
            }
            if bytes_eq(self.entries[i].0.as_slice(), key) {
                proof {
                    lemma_dict_lookup_at(self@, key@, i as int);
                }
                return Some(i);
            }
        }
        proof {
            lemma_dict_lookup_none(self@, key@);
        }
        None
    }

    /// The value under a key; later duplicates win, as a map insert would
    /// have it.
    pub fn get(&self, key: &[u8]) -> (r: Result<&Bencode, BitTorrentError>)
        ensures
            match r {
                Ok(v) => dict_lookup(self@, key@) == Some(v@),
                Err(_) => dict_lookup(self@, key@) is None,
            },
    {
        proof {
            lemma_bview_pairs_props(self.entries@);
        }
        match self.find_last(key) {
            Some(i) => Ok(&self.entries[i].1),
            None => Err(BitTorrentError::BencodeUnexpectedKind),
        }
    }

    /// The byte string under a key.
    pub fn get_bytes(&self, key: &[u8]) -> (r: Result<&Vec<u8>, BitTorrentError>)
        ensures
            match r {
                Ok(v) => dict_lookup(self@, key@) == Some(BencodeView::Str(v@)),
                Err(_) => !(dict_lookup(self@, key@) matches Some(BencodeView::Str(_))),
            },
    {
        match self.get(key) {
            Ok(v) => match v {
                Bencode::Str(s) => Ok(s),
                _ => Err(BitTorrentError::BencodeUnexpectedKind),
            },
            Err(e) => Err(e),
        }
    }

    /// The byte string under a key, as text; it must be valid UTF-8.
    pub fn get_str(&self, key: &[u8]) -> (r: Result<&str, BitTorrentError>)
        ensures
            match r {
                Ok(s) => dict_lookup(self@, key@) == Some(BencodeView::Str(s.spec_bytes()))
                    && is_utf8(s.spec_bytes()),
                Err(_) => !(dict_lookup(self@, key@) matches Some(BencodeView::Str(s))
                    && is_utf8(s)),
            },
    {
        match self.get_bytes(key) {
            Ok(v) => match utf8_from(v.as_slice()) {
                Some(s) => Ok(s),
                None => Err(BitTorrentError::BencodeUnexpectedKind),
            },
            Err(e) => Err(e),
        }
    }

    /// The integer under a key.
    pub fn get_int(&self, key: &[u8]) -> (r: Result<i64, BitTorrentError>)
        ensures
            match r {
                Ok(n) => dict_lookup(self@, key@) == Some(BencodeView::Int(n)),
                Err(_) => !(dict_lookup(self@, key@) matches Some(BencodeView::Int(_))),
            },
    {
        match self.get(key) {
            Ok(v) => match v {
                Bencode::Int(n) => Ok(*n),
                _ => Err(BitTorrentError::BencodeUnexpectedKind),
            },
            Err(e) => Err(e),
        }
    }
}

/// An owned copy of a value, equal in view.
pub fn clone_value(v: &Bencode) -> (r: Bencode)
    ensures
        r@ == v@,
    decreases *v,
{
    match v {
        Bencode::Str(s) => Bencode::Str(crate::message::clone_bytes(s)),
        Bencode::Int(i) => Bencode::Int(*i),
        Bencode::List(l) => {
            let copy = clone_list(l);
            Bencode::List(copy)
        },
        Bencode::Dict(d) => {
            let copy = clone_pairs(d);
            Bencode::Dict(copy)
        },
    }
}

fn clone_list(l: &Vec<Bencode>) -> (r: Vec<Bencode>)
    ensures
        bview_list(r@) == bview_list(l@),
    decreases *l,
{
    let mut out: Vec<Bencode> = Vec::new();
    let mut i: usize = 0;
    proof {
        lemma_bview_list_props(l@);
        lemma_bview_list_props(out@);
    }
    while i < l.len()
        invariant
            i <= l@.len(),
            out@.len() == i,
            forall|j: int| 0 <= j < i ==> bview(out@[j]) == bview(l@[j]),
        decreases l@.len() - i,
    {
        proof {
            assert(decreases_to!(*l => l@));
            assert(decreases_to!(l@ => l@[i as int]));
        }
        let c = clone_value(&l[i]);
        out.push(c);
        i = i + 1;
    }
    proof {
        lemma_bview_list_props(l@);
        lemma_bview_list_props(out@);
        assert(bview_list(out@) =~= bview_list(l@));
    }
    out
}

fn clone_pairs(d: &Vec<(Vec<u8>, Bencode)>) -> (r: Vec<(Vec<u8>, Bencode)>)
    ensures
        bview_pairs(r@) == bview_pairs(d@),
    decreases *d,
{
    let mut out: Vec<(Vec<u8>, Bencode)> = Vec::new();
    let mut i: usize = 0;
    while i < d.len()
        invariant
            i <= d@.len(),
            out@.len() == i,
            forall|j: int|
                0 <= j < i ==> (#[trigger] out@[j]).0@ == d@[j].0@ && bview(out@[j].1) == bview(
                    d@[j].1,
                ),
        decreases d@.len() - i,
    {
        proof {
            assert(decreases_to!(*d => d@));
            assert(decreases_to!(d@ => d@[i as int]));
            assert(decreases_to!(d@[i as int] => d@[i as int].1));
        }
        let k = crate::message::clone_bytes(&d[i].0);
        let c = clone_value(&d[i].1);
        out.push((k, c));
        i = i + 1;
    }
    proof {
        lemma_bview_pairs_props(d@);
        lemma_bview_pairs_props(out@);
        assert(bview_pairs(out@) =~= bview_pairs(d@));
    }
    out
}

impl Bencode {
    /// The bytes of a string value; anything else is the wrong kind.
    pub fn as_str(&self) -> (r: Result<&Vec<u8>, BitTorrentError>)
        ensures
            match r {
                Ok(v) => self@ == BencodeView::Str(v@),
                Err(e) => !(self@ is Str) && e == BitTorrentError::BencodeUnexpectedKind,
            },
    {
        match self {
            Bencode::Str(v) => Ok(v),
            _ => Err(BitTorrentError::BencodeUnexpectedKind),
        }
    }

    /// The entries of a dictionary value, copied out; anything else is
    /// the wrong kind.
    pub fn as_dict(&self) -> (r: Result<BencodeDict, BitTorrentError>)
        ensures
            match r {
                Ok(d) => self@ == BencodeView::Dict(d@),
                Err(e) => !(self@ is Dict) && e == BitTorrentError::BencodeUnexpectedKind,
            },
    {
        match self {
            Bencode::Dict(entries) => {
                let copy = clone_pairs(entries);
                Ok(BencodeDict { entries: copy })
            },
            _ => Err(BitTorrentError::BencodeUnexpectedKind),
        }
    }
}

/// The display form of a value, as bytes: strings quoted, lists in
/// brackets, dictionaries in braces, entries comma-separated in stored
/// order.
pub open spec fn render_spec(v: BencodeView) -> Seq<u8>
    decreases v,
{
    match v {
        BencodeView::Str(s) => seq![0x22u8] + s + seq![0x22u8],
        BencodeView::Int(i) => int_bytes(i as int),
        BencodeView::List(l) => seq![0x5bu8] + render_items(l) + seq![0x5du8],
        BencodeView::Dict(d) => seq![0x7bu8] + render_entries(d) + seq![0x7du8],
    }
}

/// Values joined by commas.
pub open spec fn render_items(l: Seq<BencodeView>) -> Seq<u8>
    decreases l,
{
    if l.len() == 0 {
        Seq::empty()
    } else if l.len() == 1 {
        render_spec(l[0])
    } else {
        render_spec(l[0]) + seq![0x2cu8] + render_items(l.drop_first())
    }
}

/// `"key":value` entries joined by commas.
pub open spec fn render_entries(d: Seq<(Seq<u8>, BencodeView)>) -> Seq<u8>
    decreases d,
{
    if d.len() == 0 {
        Seq::empty()
    } else if d.len() == 1 {
        seq![0x22u8] + d[0].0 + seq![0x22u8, 0x3au8] + render_spec(d[0].1)
    } else {
        seq![0x22u8] + d[0].0 + seq![0x22u8, 0x3au8] + render_spec(d[0].1) + seq![0x2cu8]
            + render_entries(d.drop_first())
    }
}

impl Bencode {
    /// The display form as text, read leniently: bytes that are not
    /// UTF-8 come out replaced, the way the lossy reader has it.
    pub fn render(&self) -> (r: String)
        ensures
            r@ == utf8_lossy_of(render_spec(self@)),
    {
        let mut out: Vec<u8> = Vec::new();
        render_into(self, &mut out);
        assert(out@ =~= render_spec(self@));
        lossy_text(out.as_slice())
    }
}

/// Appends the display form of a value.
fn render_into(v: &Bencode, out: &mut Vec<u8>)
    ensures
        final(out)@ == old(out)@ + render_spec(v@),
    decreases *v,
{
    match v {
        Bencode::Str(s) => {
            out.push(0x22);
            let mut body = vstd::slice::slice_to_vec(s.as_slice());
            out.append(&mut body);
            out.push(0x22);
            assert(out@ =~= old(out)@ + render_spec(v@));
        },
        Bencode::Int(i) => {
            push_int(out, *i);
            assert(out@ =~= old(out)@ + render_spec(v@));
        },
        Bencode::List(l) => {
            out.push(0x5b);
            render_list_items(l, out);
            out.push(0x5d);
            assert(out@ =~= old(out)@ + render_spec(v@));
        },
        Bencode::Dict(d) => {
            out.push(0x7b);
            render_dict_entries(d, out);
            out.push(0x7d);
            assert(out@ =~= old(out)@ + render_spec(v@));
        },
    }
}

/// The rendering of items `i..` of a run, with separators.
spec fn render_items_from(l: Seq<BencodeView>, i: int) -> Seq<u8>
    decreases l.len() - i,
{
    if i < 0 || i >= l.len() {
        Seq::empty()
    } else if i == l.len() - 1 {
        render_spec(l[i])
    } else {
        render_spec(l[i]) + seq![0x2cu8] + render_items_from(l, i + 1)
    }
}

proof fn lemma_render_items_from(l: Seq<BencodeView>)
    ensures
        render_items(l) == render_items_from(l, 0),
{
    lemma_render_items_shift(l, 0);
    assert(l.skip(0) =~= l);
}

proof fn lemma_render_items_shift(l: Seq<BencodeView>, i: int)
    requires
        0 <= i <= l.len(),
    ensures
        render_items_from(l, i) == render_items(l.skip(i)),
    decreases l.len() - i,
{
    let t = l.skip(i);
    if i >= l.len() {
        assert(t =~= Seq::<BencodeView>::empty());
    } else {
        assert(t[0] == l[i]);
        assert(t.len() == l.len() - i);
        lemma_render_items_shift(l, i + 1);
        assert(t.drop_first() =~= l.skip(i + 1));
        if i == l.len() - 1 {
            assert(render_items(t) == render_spec(l[i]));
        } else {
            assert(render_items(t) == render_spec(t[0]) + seq![0x2cu8] + render_items(
                t.drop_first(),
            ));
        }
    }
}

fn render_list_items(l: &Vec<Bencode>, out: &mut Vec<u8>)
    ensures
        final(out)@ == old(out)@ + render_items(bview_list(l@)),
    decreases *l,
{
    proof {
        lemma_bview_list_props(l@);
        lemma_render_items_from(bview_list(l@));
    }
    let ghost vs = bview_list(l@);
    let ghost mark: Seq<u8> = out@;
    let mut i: usize = 0;
    while i < l.len()
        invariant
            i <= l@.len(),
            vs == bview_list(l@),
            vs.len() == l@.len(),
            out@ + render_items_from(vs, i as int) == mark + render_items_from(vs, 0),
        decreases l@.len() - i,
    {
        proof {
            lemma_bview_list_props(l@);
            assert(decreases_to!(*l => l@));
            assert(decreases_to!(l@ => l@[i as int]));
        }
        render_into(&l[i], out);
        if i + 1 < l.len() {
            out.push(0x2c);
        }
        i = i + 1;
    }
    proof {
        assert(render_items_from(vs, l@.len() as int) =~= Seq::<u8>::empty());
        assert(out@ =~= mark + render_items_from(vs, 0));
        lemma_render_items_from(vs);
    }
}

/// The rendering of entries `i..` of a run, with separators.
spec fn render_entries_from(d: Seq<(Seq<u8>, BencodeView)>, i: int) -> Seq<u8>
    decreases d.len() - i,
{
    if i < 0 || i >= d.len() {
        Seq::empty()
    } else if i == d.len() - 1 {
        seq![0x22u8] + d[i].0 + seq![0x22u8, 0x3au8] + render_spec(d[i].1)
    } else {
        seq![0x22u8] + d[i].0 + seq![0x22u8, 0x3au8] + render_spec(d[i].1) + seq![0x2cu8]
            + render_entries_from(d, i + 1)
    }
}

proof fn lemma_render_entries_shift(d: Seq<(Seq<u8>, BencodeView)>, i: int)
    requires
        0 <= i <= d.len(),
    ensures
        render_entries_from(d, i) == render_entries(d.skip(i)),
    decreases d.len() - i,
{
    let t = d.skip(i);
    if i >= d.len() {
        assert(t =~= Seq::<(Seq<u8>, BencodeView)>::empty());
    } else {
        assert(t[0] == d[i]);
        assert(t.len() == d.len() - i);
        lemma_render_entries_shift(d, i + 1);
        assert(t.drop_first() =~= d.skip(i + 1));
    }
}

fn render_dict_entries(d: &Vec<(Vec<u8>, Bencode)>, out: &mut Vec<u8>)
    ensures
        final(out)@ == old(out)@ + render_entries(bview_pairs(d@)),
    decreases *d,
{
    proof {
        lemma_bview_pairs_props(d@);
        lemma_render_entries_shift(bview_pairs(d@), 0);
        assert(bview_pairs(d@).skip(0) =~= bview_pairs(d@));
    }
    let ghost ps = bview_pairs(d@);
    let ghost mark: Seq<u8> = out@;
    let mut i: usize = 0;
    while i < d.len()
        invariant
            i <= d@.len(),
            ps == bview_pairs(d@),
            ps.len() == d@.len(),
            out@ + render_entries_from(ps, i as int) == mark + render_entries_from(ps, 0),
        decreases d@.len() - i,
    {
        proof {
            lemma_bview_pairs_props(d@);
            assert(decreases_to!(*d => d@));
            assert(decreases_to!(d@ => d@[i as int]));
            assert(decreases_to!(d@[i as int] => d@[i as int].1));
        }
        out.push(0x22);
        let mut key = vstd::slice::slice_to_vec(d[i].0.as_slice());
        out.append(&mut key);
        out.push(0x22);
        out.push(0x3a);
        render_into(&d[i].1, out);
        if i + 1 < d.len() {
            out.push(0x2c);
        }
        i = i + 1;
    }
    proof {
        assert(render_entries_from(ps, d@.len() as int) =~= Seq::<u8>::empty());
        assert(out@ =~= mark + render_entries_from(ps, 0));
        lemma_render_entries_shift(ps, 0);
        assert(ps.skip(0) =~= ps);
    }
}

/// A byte cursor over borrowed input: look ahead, take runs, stop at a
/// delimiter.
pub struct Deserializer<'a> {
    bytes: &'a [u8],
    pos: usize,
}

impl<'a> Deserializer<'a> {
    /// The whole input.
    pub closed spec fn data_spec(&self) -> Seq<u8> {
        self.bytes@
    }

    /// How much has been consumed.
    pub closed spec fn pos_spec(&self) -> int {
        self.pos as int
    }

    /// The cursor never passes the end.
    pub open spec fn wf(&self) -> bool {
        0 <= self.pos_spec() <= self.data_spec().len()
    }

    /// A cursor at the start of the input.
    pub fn new(bytes: &'a [u8]) -> (r: Deserializer<'a>)
        ensures
            r.wf(),
            r.data_spec() == bytes@,
            r.pos_spec() == 0,
    {
        Deserializer { bytes, pos: 0 }
    }

    /// The next byte, without consuming it; nothing at the end.
    pub fn peek(&self) -> (r: Result<u8, BitTorrentError>)
        requires
            self.wf(),
        ensures
            r is Ok <==> self.pos_spec() < self.data_spec().len(),
            r is Ok ==> r->Ok_0 == self.data_spec()[self.pos_spec()],
    {
        if self.pos < self.bytes.len() {
            Ok(self.bytes[self.pos])
        } else {
            Err(BitTorrentError::BencodeMalformed)
        }
    }

    /// Takes exactly `len` bytes; fails without moving when fewer remain.
    pub fn read_exact(&mut self, len: usize) -> (r: Result<Vec<u8>, BitTorrentError>)
        requires
            old(self).wf(),
        ensures
            final(self).wf(),
            final(self).data_spec() == old(self).data_spec(),
            r is Ok <==> old(self).pos_spec() + len <= old(self).data_spec().len(),
            match r {
                Ok(v) => v@ == old(self).data_spec().subrange(
                    old(self).pos_spec(),
                    old(self).pos_spec() + len,
                ) && final(self).pos_spec() == old(self).pos_spec() + len,
                Err(_) => final(self).pos_spec() == old(self).pos_spec(),
            },
    {
        let blen = self.bytes.len();
        if len > blen - self.pos {
            return Err(BitTorrentError::BencodeMalformed);
        }
        let v = vstd::slice::slice_to_vec(
            vstd::slice::slice_subrange(self.bytes, self.pos, self.pos + len),
        );
        self.pos = self.pos + len;
        Ok(v)
    }

    /// Takes bytes through the first occurrence of the delimiter; fails
    /// without moving when the delimiter never comes.
    pub fn read_until(&mut self, byte: u8) -> (r: Result<Vec<u8>, BitTorrentError>)
        requires
            old(self).wf(),
        ensures
            final(self).wf(),
            final(self).data_spec() == old(self).data_spec(),
            ({
                let f = find_char(old(self).data_spec(), old(self).pos_spec(), byte);
                match r {
                    Ok(v) => f >= 0 && v@ == old(self).data_spec().subrange(
                        old(self).pos_spec(),
                        f + 1,
                    ) && final(self).pos_spec() == f + 1,
                    Err(_) => f < 0 && final(self).pos_spec() == old(self).pos_spec(),
                }
            }),
    {
        let ghost b = self.bytes@;
        let blen = self.bytes.len();
        let mut j: usize = self.pos;
        while j < blen && self.bytes[j] != byte
            invariant
                old(self).pos_spec() <= j as int <= b.len(),
                blen == b.len(),
                self == old(self),
                b == self.bytes@,
                forall|k: int| old(self).pos_spec() <= k < j ==> b[k] != byte,
            decreases b.len() - j,
        {
            j = j + 1;
        }
        proof {
            lemma_find_char_props(b, self.pos as int, byte);
        }
        if j == blen {
            return Err(BitTorrentError::BencodeMalformed);
        }
        proof {
            lemma_find_char_first(b, self.pos as int, byte, j as int);
        }
        let v = vstd::slice::slice_to_vec(
            vstd::slice::slice_subrange(self.bytes, self.pos, j + 1),
        );
        self.pos = j + 1;
        Ok(v)
    }
}

/// The byte-string payload of an encoded bencode string: what follows the
/// first colon.
pub fn str_part(s: &[u8]) -> (r: &[u8])
    ensures
        ({
            let c = find_char(s@, 0, 0x3a);
            if c >= 0 {
                r@ == s@.subrange(c + 1, s@.len() as int)
            } else {
                r@ == Seq::<u8>::empty()
            }
        }),
{
    let blen = s.len();
    let mut i: usize = 0;
    while i < blen && s[i] != 0x3a
        invariant
            i <= s@.len(),
            blen == s@.len(),
            forall|j: int| 0 <= j < i ==> s@[j] != 0x3a,
        decreases blen - i,
    {
        i = i + 1;
    }
    proof {
        lemma_find_char_props(s@, 0, 0x3a);
    }
    if i == blen {
        let r = vstd::slice::slice_subrange(s, blen, blen);
        assert(r@ =~= Seq::<u8>::empty());
        r
    } else {
        proof {
            lemma_find_char_first(s@, 0, 0x3a, i as int);
        }
        vstd::slice::slice_subrange(s, i + 1, blen)
    }
}

/// Writes bencode values into a growing byte buffer.
pub struct Serializer {
    out: Vec<u8>,
}

impl Serializer {
    /// The bytes written so far.
    pub closed spec fn out_spec(&self) -> Seq<u8> {
        self.out@
    }

    /// An empty buffer.
    pub fn new() -> (r: Serializer)
        ensures
            r.out_spec() == Seq::<u8>::empty(),
    {
        let r = Serializer { out: Vec::new() };
        assert(r.out_spec() =~= Seq::<u8>::empty());
        r
    }

    /// Appends one value's canonical encoding: dictionaries come out
    /// with their keys sorted by raw bytes, whatever order they were
    /// held in.
    pub fn write_value(&mut self, v: &Bencode)
        ensures
            final(self).out_spec() == old(self).out_spec() + benc(canon_spec(v@)),
    {
        let c = canonicalize_value(v);
        encode_into(&c, &mut self.out);
    }

    /// Hands the accumulated bytes over.
    pub fn into_bytes(self) -> (r: Vec<u8>)
        ensures
            r@ == self.out_spec(),
    {
        self.out
    }
}

/// Appends the encoding of a value, entries written as held.  The
/// crate's own dictionaries are built in key order; outside callers go
/// through `Serializer::write_value`, which sorts first.
pub(crate) fn encode_into(v: &Bencode, out: &mut Vec<u8>)
    ensures
        final(out)@ == old(out)@ + benc(v@),
    decreases *v,
{
    match v {
        Bencode::Str(s) => {
            push_plain_digits(out, s.len() as u64);
            out.push(0x3a);
            let mut body = vstd::slice::slice_to_vec(s.as_slice());
            out.append(&mut body);
            assert(out@ =~= old(out)@ + benc(v@));
        },
        Bencode::Int(i) => {
            out.push(0x69);
            push_int(out, *i);
            out.push(0x65);
            assert(out@ =~= old(out)@ + benc(v@));
        },
        Bencode::List(l) => {
            out.push(0x6c);
            encode_list_items(l, out);
            out.push(0x65);
            assert(out@ =~= old(out)@ + benc(v@));
        },
        Bencode::Dict(d) => {
            out.push(0x64);
            encode_dict_items(d, out);
            out.push(0x65);
            assert(out@ =~= old(out)@ + benc(v@));
        },
    }
}

/// Appends the encodings of a run of values, in order.
fn encode_list_items(l: &Vec<Bencode>, out: &mut Vec<u8>)
    ensures
        final(out)@ == old(out)@ + benc_seq(bview_list(l@)),
    decreases *l,
{
    let ghost mark: Seq<u8> = out@;
    let mut i: usize = 0;
    proof {
        lemma_bview_list_props(l@);
        assert(bview_list(l@).take(0) =~= Seq::<BencodeView>::empty());
        assert(out@ =~= mark + benc_seq(bview_list(l@).take(0)));
    }
    while i < l.len()
        invariant
            i <= l@.len(),
            out@ == mark + benc_seq(bview_list(l@).take(i as int)),
        decreases l@.len() - i,
    {
        proof {
            lemma_bview_list_props(l@);
            assert(decreases_to!(*l => l@));
            assert(decreases_to!(l@ => l@[i as int]));
        }
        encode_into(&l[i], out);
        proof {
            lemma_benc_seq_take_step(bview_list(l@), i as int);
        }
        i = i + 1;
    }
    proof {
        lemma_bview_list_props(l@);
        assert(bview_list(l@).take(l@.len() as int) =~= bview_list(l@));
    }
}

/// Appends the encodings of a run of entries, in order.
fn encode_dict_items(d: &Vec<(Vec<u8>, Bencode)>, out: &mut Vec<u8>)
    ensures
        final(out)@ == old(out)@ + benc_pairs(bview_pairs(d@)),
    decreases *d,
{
    let ghost mark: Seq<u8> = out@;
    let mut i: usize = 0;
    proof {
        lemma_bview_pairs_props(d@);
        assert(bview_pairs(d@).take(0) =~= Seq::<(Seq<u8>, BencodeView)>::empty());
        assert(out@ =~= mark + benc_pairs(bview_pairs(d@).take(0)));
    }
    while i < d.len()
        invariant
            i <= d@.len(),
            out@ == mark + benc_pairs(bview_pairs(d@).take(i as int)),
        decreases d@.len() - i,
    {
        proof {
            lemma_bview_pairs_props(d@);
            assert(decreases_to!(*d => d@));
            assert(decreases_to!(d@ => d@[i as int]));
            assert(decreases_to!(d@[i as int] => d@[i as int].1));
        }
        push_plain_digits(out, d[i].0.len() as u64);
        out.push(0x3a);
        let mut key = vstd::slice::slice_to_vec(d[i].0.as_slice());
        out.append(&mut key);
        encode_into(&d[i].1, out);
        proof {
            lemma_benc_pairs_take_step(bview_pairs(d@), i as int);
            assert(out@ =~= mark + benc_pairs(bview_pairs(d@).take(i as int)) + (dec_digits(
                d@[i as int].0@.len(),
            ) + seq![0x3au8] + d@[i as int].0@ + benc(bview(d@[i as int].1))));
        }
        i = i + 1;
    }
    proof {
        lemma_bview_pairs_props(d@);
        assert(bview_pairs(d@).take(d@.len() as int) =~= bview_pairs(d@));
    }
}

/// One more element extends the concatenated encodings by that element's
/// encoding.
proof fn lemma_benc_seq_take_step(l: Seq<BencodeView>, i: int)
    requires
        0 <= i < l.len(),
    ensures
        benc_seq(l.take(i + 1)) == benc_seq(l.take(i)) + benc(l[i]),
    decreases i,
{
    if i == 0 {
        reveal_with_fuel(benc_seq, 3);
        assert(l.take(1)[0] == l[0]);
        assert(l.take(1).drop_first() =~= Seq::<BencodeView>::empty());
        assert(l.take(0) =~= Seq::<BencodeView>::empty());
        assert(benc_seq(l.take(1)) =~= benc(l[0]));
        assert(benc_seq(l.take(0)) =~= Seq::<u8>::empty());
        assert(benc_seq(l.take(0)) + benc(l[0]) =~= benc(l[0]));
    } else {
        lemma_benc_seq_take_step(l.drop_first(), i - 1);
        assert(l.take(i + 1).drop_first() =~= l.drop_first().take(i));
        assert(l.take(i).drop_first() =~= l.drop_first().take(i - 1));
        assert(l.take(i + 1)[0] == l[0]);
        assert(l.take(i)[0] == l[0]);
        assert(benc_seq(l.take(i + 1)) == benc(l[0]) + benc_seq(l.drop_first().take(i)));
        assert(benc_seq(l.take(i)) == benc(l[0]) + benc_seq(l.drop_first().take(i - 1)));
        assert(l.drop_first()[i - 1] == l[i]);
        assert(benc(l[0]) + (benc_seq(l.drop_first().take(i - 1)) + benc(l[i])) =~= (benc(l[0])
            + benc_seq(l.drop_first().take(i - 1))) + benc(l[i]));
    }
}

/// One more entry extends the concatenated encodings by that entry's
/// key and value encodings.
proof fn lemma_benc_pairs_take_step(d: Seq<(Seq<u8>, BencodeView)>, i: int)
    requires
        0 <= i < d.len(),
    ensures
        benc_pairs(d.take(i + 1)) == benc_pairs(d.take(i)) + (dec_digits(d[i].0.len()) + seq![
            0x3au8,
        ] + d[i].0 + benc(d[i].1)),
    decreases i,
{
    let entry = dec_digits(d[i].0.len()) + seq![0x3au8] + d[i].0 + benc(d[i].1);
    if i == 0 {
        reveal_with_fuel(benc_pairs, 3);
        assert(d.take(1)[0] == d[0]);
        assert(d.take(1).drop_first() =~= Seq::<(Seq<u8>, BencodeView)>::empty());
        assert(d.take(0) =~= Seq::<(Seq<u8>, BencodeView)>::empty());
        assert(benc_pairs(d.take(1)) =~= entry);
        assert(benc_pairs(d.take(0)) =~= Seq::<u8>::empty());
        assert(benc_pairs(d.take(0)) + entry =~= entry);
    } else {
        lemma_benc_pairs_take_step(d.drop_first(), i - 1);
        assert(d.take(i + 1).drop_first() =~= d.drop_first().take(i));
        assert(d.take(i).drop_first() =~= d.drop_first().take(i - 1));
        assert(d.take(i + 1)[0] == d[0]);
        assert(d.take(i)[0] == d[0]);
        let head = dec_digits(d[0].0.len()) + seq![0x3au8] + d[0].0 + benc(d[0].1);
        assert(benc_pairs(d.take(i + 1)) == head + benc_pairs(d.drop_first().take(i)));
        assert(benc_pairs(d.take(i)) == head + benc_pairs(d.drop_first().take(i - 1)));
        assert(d.drop_first()[i - 1] == d[i]);
        assert(head + (benc_pairs(d.drop_first().take(i - 1)) + entry) =~= (head + benc_pairs(
            d.drop_first().take(i - 1),
        )) + entry);
    }
}

} // verus!
