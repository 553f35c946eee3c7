use vstd::prelude::*;
use vstd::utf8::*;
use vstd::string::StringSliceAdditionalSpecFns;
use crate::entry::{
    defs_view, entries_view, meanings_view, opt_view, phonetics_view, strs_view, Definition, DefinitionView, Entry, EntryView, Meaning, MeaningView,
    Phonetic, PhoneticView,
};

verus! {

broadcast use encode_utf8_valid_utf8, encode_utf8_decode_utf8;

/// Eight little-endian bytes of `n`.
pub open spec fn le8(n: u64) -> Seq<u8> {
    seq![
        n as u8,
        (n >> 8u64) as u8,
        (n >> 16u64) as u8,
        (n >> 24u64) as u8,
        (n >> 32u64) as u8,
        (n >> 40u64) as u8,
        (n >> 48u64) as u8,
        (n >> 56u64) as u8,
    ]
}

pub open spec fn join8(b0: u8, b1: u8, b2: u8, b3: u8, b4: u8, b5: u8, b6: u8, b7: u8) -> u64 {
    (b0 as u64) | ((b1 as u64) << 8u64) | ((b2 as u64) << 16u64) | ((b3 as u64) << 24u64)
        | ((b4 as u64) << 32u64) | ((b5 as u64) << 40u64) | ((b6 as u64) << 48u64) | ((b7
        as u64) << 56u64)
}

/// The little-endian integer in the eight bytes at `p`, and the position after them.
pub open spec fn parse_le8(b: Seq<u8>, p: int) -> Option<(u64, int)> {
    if 0 <= p && p + 8 <= b.len() {
        Some((join8(b[p], b[p + 1], b[p + 2], b[p + 3], b[p + 4], b[p + 5], b[p + 6], b[p + 7]), p + 8))
    } else {
        None
    }
}

/// A byte string framed by its length.
pub open spec fn enc_bytes(b: Seq<u8>) -> Seq<u8> {
    le8(b.len() as u64) + b
}

/// A string: its UTF-8 bytes framed by their length.
pub open spec fn enc_str(s: Seq<char>) -> Seq<u8> {
    enc_bytes(encode_utf8(s))
}

/// An optional string: a tag byte 0 when absent, 1 and the string when present.
pub open spec fn enc_opt(o: Option<Seq<char>>) -> Seq<u8> {
    match o {
        None => seq![0u8],
        Some(s) => seq![1u8] + enc_str(s),
    }
}

pub open spec fn parse_str(b: Seq<u8>, p: int) -> Option<(Seq<char>, int)> {
    match parse_le8(b, p) {
        Some((n, q)) => if q + n <= b.len() && valid_utf8(b.subrange(q, q + n)) {
            Some((decode_utf8(b.subrange(q, q + n)), q + n))
        } else {
            None
        },
        None => None,
    }
}

pub open spec fn parse_opt(b: Seq<u8>, p: int) -> Option<(Option<Seq<char>>, int)> {
    if 0 <= p < b.len() {
        if b[p] == 0 {
            Some((None, p + 1))
        } else if b[p] == 1 {
            match parse_str(b, p + 1) {
                Some((s, q)) => Some((Some(s), q)),
                None => None,
            }
        } else {
            None
        }
    } else {
        None
    }
}

/// `b` holds `x` at position `p`.
pub open spec fn holds_at(b: Seq<u8>, p: int, x: Seq<u8>) -> bool {
    0 <= p && p + x.len() <= b.len() && b.subrange(p, p + x.len()) == x
}

pub open spec fn fits(n: nat) -> bool {
    n <= u64::MAX
}

pub open spec fn str_fits(s: Seq<char>) -> bool {
    fits(encode_utf8(s).len())
}

pub open spec fn opt_fits(o: Option<Seq<char>>) -> bool {
    o matches Some(s) ==> str_fits(s)
}

pub proof fn lemma_le8(b: Seq<u8>, p: int, n: u64)
    requires
        holds_at(b, p, le8(n)),
    ensures
        parse_le8(b, p) == Some((n, p + 8)),
{
    assert(b[p] == le8(n)[0]);
    assert(b[p + 1] == le8(n)[1]);
    assert(b[p + 2] == le8(n)[2]);
    assert(b[p + 3] == le8(n)[3]);
    assert(b[p + 4] == le8(n)[4]);
    assert(b[p + 5] == le8(n)[5]);
    assert(b[p + 6] == le8(n)[6]);
    assert(b[p + 7] == le8(n)[7]);
    assert(join8(
        n as u8,
        (n >> 8u64) as u8,
        (n >> 16u64) as u8,
        (n >> 24u64) as u8,
        (n >> 32u64) as u8,
        (n >> 40u64) as u8,
        (n >> 48u64) as u8,
        (n >> 56u64) as u8,
    ) == n) by (bit_vector);
}

pub proof fn lemma_holds_split(b: Seq<u8>, p: int, x: Seq<u8>, y: Seq<u8>)
    requires
        holds_at(b, p, x + y),
    ensures
        holds_at(b, p, x),
        holds_at(b, p + x.len(), y),
{
    let w = b.subrange(p, p + x.len() + y.len());
    assert(w == x + y);
    assert(b.subrange(p, p + x.len()) =~= w.subrange(0, x.len() as int));
    assert(w.subrange(0, x.len() as int) =~= x);
    assert(b.subrange(p + x.len(), p + x.len() + y.len()) =~= w.subrange(
        x.len() as int,
        w.len() as int,
    ));
    assert(w.subrange(x.len() as int, w.len() as int) =~= y);
}

pub proof fn lemma_str(b: Seq<u8>, p: int, s: Seq<char>)
    requires
        holds_at(b, p, enc_str(s)),
        str_fits(s),
    ensures
        parse_str(b, p) == Some((s, p + enc_str(s).len())),
{
    let u = encode_utf8(s);
    lemma_holds_split(b, p, le8(u.len() as u64), u);
    lemma_le8(b, p, u.len() as u64);
}

pub proof fn lemma_opt(b: Seq<u8>, p: int, o: Option<Seq<char>>)
    requires
        holds_at(b, p, enc_opt(o)),
        opt_fits(o),
    ensures
        parse_opt(b, p) == Some((o, p + enc_opt(o).len())),
{
    match o {
        None => {
            assert(b[p] == enc_opt(o)[0]);
        },
        Some(s) => {
            lemma_holds_split(b, p, seq![1u8], enc_str(s));
            assert(b[p] == enc_opt(o)[0]);
            lemma_str(b, p + 1, s);
        },
    }
}

/// Relies on String::from_utf8: it accepts exactly the valid UTF-8 byte strings and
/// keeps the characters they encode.
#[verifier::external_body]
fn string_from_utf8(b: Vec<u8>) -> (r: Option<String>)
    ensures
        r is Some <==> valid_utf8(b@),
        r matches Some(s) ==> s@ == decode_utf8(b@),
{
    String::from_utf8(b).ok()
}

fn put_le8(out: &mut Vec<u8>, n: u64)
    ensures
        final(out)@ == old(out)@ + le8(n),
{
    out.push(n as u8);
    out.push((n >> 8u64) as u8);
    out.push((n >> 16u64) as u8);
    out.push((n >> 24u64) as u8);
    out.push((n >> 32u64) as u8);
    out.push((n >> 40u64) as u8);
    out.push((n >> 48u64) as u8);
    out.push((n >> 56u64) as u8);
    assert(final(out)@ =~= old(out)@ + le8(n));
}

fn put_str(out: &mut Vec<u8>, s: &String)
    ensures
        final(out)@ == old(out)@ + enc_str(s@),
        str_fits(s@),
{
    let bytes = s.as_str().as_bytes();
    let ghost start = out@;
    put_le8(out, bytes.len() as u64);
    let mut i: usize = 0;
    while i < bytes.len()
        invariant
            bytes@ == encode_utf8(s@),
            out@ == start + le8(bytes@.len() as u64) + bytes@.subrange(0, i as int),
            i <= bytes@.len(),
        decreases bytes@.len() - i,
    {
        out.push(bytes[i]);
        i += 1;
        assert(out@ =~= start + le8(bytes@.len() as u64) + bytes@.subrange(0, i as int));
    }
    assert(bytes@.subrange(0, i as int) =~= bytes@);
    assert(out@ =~= start + enc_str(s@));
}

fn put_opt(out: &mut Vec<u8>, o: &Option<String>)
    ensures
        final(out)@ == old(out)@ + enc_opt(opt_view(*o)),
        opt_fits(opt_view(*o)),
{
    match o {
        None => {
            out.push(0u8);
            assert(final(out)@ =~= old(out)@ + enc_opt(opt_view(*o)));
        },
        Some(s) => {
            out.push(1u8);
            put_str(out, s);
            assert(final(out)@ =~= old(out)@ + enc_opt(opt_view(*o)));
        },
    }
}

fn get_le8(b: &Vec<u8>, p: usize) -> (r: Option<(u64, usize)>)
    ensures
        match r {
            Some((n, q)) => parse_le8(b@, p as int) == Some((n, q as int)),
            None => parse_le8(b@, p as int) is None,
        },
{
    if p > b.len() || b.len() - p < 8 {
        return None;
    }
    let n = (b[p] as u64) | ((b[p + 1] as u64) << 8u64) | ((b[p + 2] as u64) << 16u64) | ((b[p
        + 3] as u64) << 24u64) | ((b[p + 4] as u64) << 32u64) | ((b[p + 5] as u64) << 40u64) | ((b[p
        + 6] as u64) << 48u64) | ((b[p + 7] as u64) << 56u64);
    Some((n, p + 8))
}

fn get_str(b: &Vec<u8>, p: usize) -> (r: Option<(String, usize)>)
    ensures
        match r {
            Some((s, q)) => parse_str(b@, p as int) == Some((s@, q as int)),
            None => parse_str(b@, p as int) is None,
        },
{
    let (n, q) = match get_le8(b, p) {
        Some(x) => x,
        None => return None,
    };
    if n > (b.len() - q) as u64 {
        return None;
    }
    let end = q + n as usize;
    let mut bytes: Vec<u8> = Vec::new();
    let mut i: usize = q;
    while i < end
        invariant
            q <= i <= end <= b@.len(),
            bytes@ == b@.subrange(q as int, i as int),
        decreases end - i,
    {
        bytes.push(b[i]);
        i += 1;
        assert(bytes@ =~= b@.subrange(q as int, i as int));
    }
    match string_from_utf8(bytes) {
        Some(s) => Some((s, end)),
        None => None,
    }
}

fn get_opt(b: &Vec<u8>, p: usize) -> (r: Option<(Option<String>, usize)>)
    ensures
        match r {
            Some((o, q)) => parse_opt(b@, p as int) == Some((opt_view(o), q as int)),
            None => parse_opt(b@, p as int) is None,
        },
{
    if p >= b.len() {
        return None;
    }
    if b[p] == 0 {
        Some((None, p + 1))
    } else if b[p] == 1 {
        match get_str(b, p + 1) {
            Some((s, q)) => Some((Some(s), q)),
            None => None,
        }
    } else {
        None
    }
}

pub open spec fn enc_strs_items(xs: Seq<Seq<char>>) -> Seq<u8>
    decreases xs.len(),
{
    if xs.len() == 0 {
        seq![]
    } else {
        enc_strs_items(xs.drop_last()) + enc_str(xs.last())
    }
}

pub open spec fn enc_strs(xs: Seq<Seq<char>>) -> Seq<u8> {
    le8(xs.len() as u64) + enc_strs_items(xs)
}

pub open spec fn parse_strs_items(b: Seq<u8>, p: int, k: nat) -> Option<(Seq<Seq<char>>, int)>
    decreases k,
{
    if k == 0 {
        Some((seq![], p))
    } else {
        match parse_strs_items(b, p, (k - 1) as nat) {
            Some((xs, q)) => match parse_str(b, q) {
                Some((x, r)) => Some((xs.push(x), r)),
                None => None,
            },
            None => None,
        }
    }
}

pub open spec fn parse_strs(b: Seq<u8>, p: int) -> Option<(Seq<Seq<char>>, int)> {
    match parse_le8(b, p) {
        Some((n, q)) => parse_strs_items(b, q, n as nat),
        None => None,
    }
}

pub open spec fn strs_fits(xs: Seq<Seq<char>>) -> bool {
    fits(xs.len()) && forall|i: int| 0 <= i < xs.len() ==> #[trigger] str_fits(xs[i])
}

proof fn lemma_strs_none(b: Seq<u8>, p: int, j: nat, k: nat)
    requires
        j <= k,
        parse_strs_items(b, p, j) is None,
    ensures
        parse_strs_items(b, p, k) is None,
    decreases k,
{
    if k > j {
        lemma_strs_none(b, p, j, (k - 1) as nat);
    }
}

proof fn lemma_strs_prefix(b: Seq<u8>, p: int, xs: Seq<Seq<char>>, j: int)
    requires
        holds_at(b, p, enc_strs_items(xs)),
        0 <= j <= xs.len(),
    ensures
        holds_at(b, p, enc_strs_items(xs.take(j))),
    decreases xs.len(),
{
    if j == xs.len() {
        assert(xs.take(j) =~= xs);
    } else {
        lemma_holds_split(b, p, enc_strs_items(xs.drop_last()), enc_str(xs.last()));
        lemma_strs_prefix(b, p, xs.drop_last(), j);
        assert(xs.drop_last().take(j) =~= xs.take(j));
    }
}

proof fn lemma_strs_items(b: Seq<u8>, p: int, xs: Seq<Seq<char>>, j: nat)
    requires
        holds_at(b, p, enc_strs_items(xs)),
        j <= xs.len(),
        forall|i: int| 0 <= i < xs.len() ==> #[trigger] str_fits(xs[i]),
    ensures
        parse_strs_items(b, p, j) == Some(
            (xs.take(j as int), p + enc_strs_items(xs.take(j as int)).len()),
        ),
    decreases j,
{
    if j == 0 {
        assert(xs.take(0) =~= Seq::<Seq<char>>::empty());
    } else {
        lemma_strs_items(b, p, xs, (j - 1) as nat);
        let ys = xs.take(j as int);
        let zs = xs.take(j - 1);
        assert(ys.drop_last() =~= zs);
        assert(zs.push(xs[j - 1]) =~= ys);
        lemma_strs_prefix(b, p, xs, j as int);
        lemma_holds_split(b, p, enc_strs_items(zs), enc_str(xs[j - 1]));
        lemma_str(b, p + enc_strs_items(zs).len(), xs[j - 1]);
    }
}

proof fn lemma_strs(b: Seq<u8>, p: int, xs: Seq<Seq<char>>)
    requires
        holds_at(b, p, enc_strs(xs)),
        strs_fits(xs),
    ensures
        parse_strs(b, p) == Some((xs, p + enc_strs(xs).len())),
{
    lemma_holds_split(b, p, le8(xs.len() as u64), enc_strs_items(xs));
    lemma_le8(b, p, xs.len() as u64);
    lemma_strs_items(b, p + 8, xs, xs.len());
    assert(xs.take(xs.len() as int) =~= xs);
}

fn put_strs(out: &mut Vec<u8>, v: &Vec<String>)
    ensures
        final(out)@ == old(out)@ + enc_strs(strs_view(v@)),
        strs_fits(strs_view(v@)),
{
    let ghost start = out@;
    put_le8(out, v.len() as u64);
    let mut i: usize = 0;
    while i < v.len()
        invariant
            i <= v@.len(),
            out@ == start + le8(v@.len() as u64) + enc_strs_items(strs_view(v@.take(i as int))),
            forall|k: int| 0 <= k < i ==> #[trigger] str_fits(strs_view(v@)[k]),
        decreases v@.len() - i,
    {
        put_str(out, &v[i]);
        assert(strs_view(v@.take(i + 1)).drop_last() =~= strs_view(v@.take(i as int)));
        assert(strs_view(v@.take(i + 1)).last() == strs_view(v@)[i as int]);
        i += 1;
        assert(out@ =~= start + le8(v@.len() as u64) + enc_strs_items(strs_view(v@.take(i as int))));
    }
    assert(v@.take(i as int) =~= v@);
    assert(out@ =~= start + enc_strs(strs_view(v@)));
}

fn get_strs(b: &Vec<u8>, p: usize) -> (r: Option<(Vec<String>, usize)>)
    ensures
        match r {
            Some((v, q)) => parse_strs(b@, p as int) == Some((strs_view(v@), q as int)),
            None => parse_strs(b@, p as int) is None,
        },
{
    let (n, start) = match get_le8(b, p) {
        Some(x) => x,
        None => return None,
    };
    let mut q = start;
    let mut out: Vec<String> = Vec::new();
    let mut i: u64 = 0;
    assert(strs_view(out@) =~= Seq::<Seq<char>>::empty());
    while i < n
        invariant
            parse_le8(b@, p as int) == Some((n, start as int)),
            i <= n,
            parse_strs_items(b@, start as int, i as nat) == Some((strs_view(out@), q as int)),
        decreases n - i,
    {
        match get_str(b, q) {
            Some((x, r)) => {
                let ghost prev = out@;
                out.push(x);
                assert(strs_view(out@) =~= strs_view(prev).push(x@));
                q = r;
                i += 1;
            },
            None => {
                proof {
                    lemma_strs_none(b@, start as int, (i + 1) as nat, n as nat);
                }
                return None;
            },
        }
    }
    Some((out, q))
}

pub open spec fn enc_def(d: DefinitionView) -> Seq<u8> {
    enc_str(d.brief) + enc_opt(d.example)
}

pub open spec fn parse_def(b: Seq<u8>, p: int) -> Option<(DefinitionView, int)> {
    match parse_str(b, p) {
        Some((s, q)) => match parse_opt(b, q) {
            Some((o, r)) => Some((DefinitionView { brief: s, example: o }, r)),
            None => None,
        },
        None => None,
    }
}

pub open spec fn def_fits(d: DefinitionView) -> bool {
    str_fits(d.brief) && opt_fits(d.example)
}

proof fn lemma_def(b: Seq<u8>, p: int, d: DefinitionView)
    requires
        holds_at(b, p, enc_def(d)),
        def_fits(d),
    ensures
        parse_def(b, p) == Some((d, p + enc_def(d).len())),
{
    lemma_holds_split(b, p, enc_str(d.brief), enc_opt(d.example));
    lemma_str(b, p, d.brief);
    lemma_opt(b, p + enc_str(d.brief).len(), d.example);
}

fn put_def(out: &mut Vec<u8>, d: &Definition)
    ensures
        final(out)@ == old(out)@ + enc_def(d@),
        def_fits(d@),
{
    put_str(out, &d.brief);
    put_opt(out, &d.example);
    assert(final(out)@ =~= old(out)@ + enc_def(d@));
}

fn get_def(b: &Vec<u8>, p: usize) -> (r: Option<(Definition, usize)>)
    ensures
        match r {
            Some((d, q)) => parse_def(b@, p as int) == Some((d@, q as int)),
            None => parse_def(b@, p as int) is None,
        },
{
    let (brief, q) = match get_str(b, p) {
        Some(x) => x,
        None => return None,
    };
    let (example, r) = match get_opt(b, q) {
        Some(x) => x,
        None => return None,
    };
    Some((Definition { brief, example }, r))
}

pub open spec fn enc_defs_items(xs: Seq<DefinitionView>) -> Seq<u8>
    decreases xs.len(),
{
    if xs.len() == 0 {
        seq![]
    } else {
        enc_defs_items(xs.drop_last()) + enc_def(xs.last())
    }
}

pub open spec fn enc_defs(xs: Seq<DefinitionView>) -> Seq<u8> {
    le8(xs.len() as u64) + enc_defs_items(xs)
}

pub open spec fn parse_defs_items(b: Seq<u8>, p: int, k: nat) -> Option<(Seq<DefinitionView>, int)>
    decreases k,
{
    if k == 0 {
        Some((seq![], p))
    } else {
        match parse_defs_items(b, p, (k - 1) as nat) {
            Some((xs, q)) => match parse_def(b, q) {
                Some((x, r)) => Some((xs.push(x), r)),
                None => None,
            },
            None => None,
        }
    }
}

pub open spec fn parse_defs(b: Seq<u8>, p: int) -> Option<(Seq<DefinitionView>, int)> {
    match parse_le8(b, p) {
        Some((n, q)) => parse_defs_items(b, q, n as nat),
        None => None,
    }
}

pub open spec fn defs_fits(xs: Seq<DefinitionView>) -> bool {
    fits(xs.len()) && forall|i: int| 0 <= i < xs.len() ==> #[trigger] def_fits(xs[i])
}

proof fn lemma_defs_none(b: Seq<u8>, p: int, j: nat, k: nat)
    requires
        j <= k,
        parse_defs_items(b, p, j) is None,
    ensures
        parse_defs_items(b, p, k) is None,
    decreases k,
{
    if k > j {
        lemma_defs_none(b, p, j, (k - 1) as nat);
    }
}

proof fn lemma_defs_prefix(b: Seq<u8>, p: int, xs: Seq<DefinitionView>, j: int)
    requires
        holds_at(b, p, enc_defs_items(xs)),
        0 <= j <= xs.len(),
    ensures
        holds_at(b, p, enc_defs_items(xs.take(j))),
    decreases xs.len(),
{
    if j == xs.len() {
        assert(xs.take(j) =~= xs);
    } else {
        lemma_holds_split(b, p, enc_defs_items(xs.drop_last()), enc_def(xs.last()));
        lemma_defs_prefix(b, p, xs.drop_last(), j);
        assert(xs.drop_last().take(j) =~= xs.take(j));
    }
}

proof fn lemma_defs_items(b: Seq<u8>, p: int, xs: Seq<DefinitionView>, j: nat)
    requires
        holds_at(b, p, enc_defs_items(xs)),
        j <= xs.len(),
        forall|i: int| 0 <= i < xs.len() ==> #[trigger] def_fits(xs[i]),
    ensures
        parse_defs_items(b, p, j) == Some(
            (xs.take(j as int), p + enc_defs_items(xs.take(j as int)).len()),
        ),
    decreases j,
{
    if j == 0 {
        assert(xs.take(0) =~= Seq::<DefinitionView>::empty());
    } else {
        lemma_defs_items(b, p, xs, (j - 1) as nat);
        let ys = xs.take(j as int);
        let zs = xs.take(j - 1);
        assert(ys.drop_last() =~= zs);
        assert(zs.push(xs[j - 1]) =~= ys);
        lemma_defs_prefix(b, p, xs, j as int);
        lemma_holds_split(b, p, enc_defs_items(zs), enc_def(xs[j - 1]));
        lemma_def(b, p + enc_defs_items(zs).len(), xs[j - 1]);
    }
}

proof fn lemma_defs(b: Seq<u8>, p: int, xs: Seq<DefinitionView>)
    requires
        holds_at(b, p, enc_defs(xs)),
        defs_fits(xs),
    ensures
        parse_defs(b, p) == Some((xs, p + enc_defs(xs).len())),
{
    lemma_holds_split(b, p, le8(xs.len() as u64), enc_defs_items(xs));
    lemma_le8(b, p, xs.len() as u64);
    lemma_defs_items(b, p + 8, xs, xs.len());
    assert(xs.take(xs.len() as int) =~= xs);
}

fn put_defs(out: &mut Vec<u8>, v: &Vec<Definition>)
    ensures
        final(out)@ == old(out)@ + enc_defs(defs_view(v@)),
        defs_fits(defs_view(v@)),
{
    let ghost start = out@;
    put_le8(out, v.len() as u64);
    let mut i: usize = 0;
    while i < v.len()
        invariant
            i <= v@.len(),
            out@ == start + le8(v@.len() as u64) + enc_defs_items(defs_view(v@.take(i as int))),
            forall|k: int| 0 <= k < i ==> #[trigger] def_fits(defs_view(v@)[k]),
        decreases v@.len() - i,
    {
        put_def(out, &v[i]);
        assert(defs_view(v@.take(i + 1)).drop_last() =~= defs_view(v@.take(i as int)));
        assert(defs_view(v@.take(i + 1)).last() == defs_view(v@)[i as int]);
        i += 1;
        assert(out@ =~= start + le8(v@.len() as u64) + enc_defs_items(defs_view(v@.take(i as int))));
    }
    assert(v@.take(i as int) =~= v@);
    assert(out@ =~= start + enc_defs(defs_view(v@)));
}

fn get_defs(b: &Vec<u8>, p: usize) -> (r: Option<(Vec<Definition>, usize)>)
    ensures
        match r {
            Some((v, q)) => parse_defs(b@, p as int) == Some((defs_view(v@), q as int)),
            None => parse_defs(b@, p as int) is None,
        },
{
    let (n, start) = match get_le8(b, p) {
        Some(x) => x,
        None => return None,
    };
    let mut q = start;
    let mut out: Vec<Definition> = Vec::new();
    let mut i: u64 = 0;
    assert(defs_view(out@) =~= Seq::<DefinitionView>::empty());
    while i < n
        invariant
            parse_le8(b@, p as int) == Some((n, start as int)),
            i <= n,
            parse_defs_items(b@, start as int, i as nat) == Some((defs_view(out@), q as int)),
        decreases n - i,
    {
        match get_def(b, q) {
            Some((x, r)) => {
                let ghost prev = out@;
                out.push(x);
                assert(defs_view(out@) =~= defs_view(prev).push(x@));
                q = r;
                i += 1;
            },
            None => {
                proof {
                    lemma_defs_none(b@, start as int, (i + 1) as nat, n as nat);
                }
                return None;
            },
        }
    }
    Some((out, q))
}

pub open spec fn enc_phonetic(x: PhoneticView) -> Seq<u8> {
    enc_opt(x.text)
}

pub open spec fn parse_phonetic(b: Seq<u8>, p: int) -> Option<(PhoneticView, int)> {
    match parse_opt(b, p) {
        Some((o, q)) => Some((PhoneticView { text: o }, q)),
        None => None,
    }
}

pub open spec fn phonetic_fits(x: PhoneticView) -> bool {
    opt_fits(x.text)
}

proof fn lemma_phonetic(b: Seq<u8>, p: int, x: PhoneticView)
    requires
        holds_at(b, p, enc_phonetic(x)),
        phonetic_fits(x),
    ensures
        parse_phonetic(b, p) == Some((x, p + enc_phonetic(x).len())),
{
    lemma_opt(b, p, x.text);
}

fn put_phonetic(out: &mut Vec<u8>, x: &Phonetic)
    ensures
        final(out)@ == old(out)@ + enc_phonetic(x@),
        phonetic_fits(x@),
{
    put_opt(out, &x.text);
}

fn get_phonetic(b: &Vec<u8>, p: usize) -> (r: Option<(Phonetic, usize)>)
    ensures
        match r {
            Some((x, q)) => parse_phonetic(b@, p as int) == Some((x@, q as int)),
            None => parse_phonetic(b@, p as int) is None,
        },
{
    match get_opt(b, p) {
        Some((text, q)) => Some((Phonetic { text }, q)),
        None => None,
    }
}

pub open spec fn enc_phonetics_items(xs: Seq<PhoneticView>) -> Seq<u8>
    decreases xs.len(),
{
    if xs.len() == 0 {
        seq![]
    } else {
        enc_phonetics_items(xs.drop_last()) + enc_phonetic(xs.last())
    }
}

pub open spec fn enc_phonetics(xs: Seq<PhoneticView>) -> Seq<u8> {
    le8(xs.len() as u64) + enc_phonetics_items(xs)
}

pub open spec fn parse_phonetics_items(b: Seq<u8>, p: int, k: nat) -> Option<(Seq<PhoneticView>, int)>
    decreases k,
{
    if k == 0 {
        Some((seq![], p))
    } else {
        match parse_phonetics_items(b, p, (k - 1) as nat) {
            Some((xs, q)) => match parse_phonetic(b, q) {
                Some((x, r)) => Some((xs.push(x), r)),
                None => None,
            },
            None => None,
        }
    }
}

pub open spec fn parse_phonetics(b: Seq<u8>, p: int) -> Option<(Seq<PhoneticView>, int)> {
    match parse_le8(b, p) {
        Some((n, q)) => parse_phonetics_items(b, q, n as nat),
        None => None,
    }
}

pub open spec fn phonetics_fits(xs: Seq<PhoneticView>) -> bool {
    fits(xs.len()) && forall|i: int| 0 <= i < xs.len() ==> #[trigger] phonetic_fits(xs[i])
}

proof fn lemma_phonetics_none(b: Seq<u8>, p: int, j: nat, k: nat)
    requires
        j <= k,
        parse_phonetics_items(b, p, j) is None,
    ensures
        parse_phonetics_items(b, p, k) is None,
    decreases k,
{
    if k > j {
        lemma_phonetics_none(b, p, j, (k - 1) as nat);
    }
}

proof fn lemma_phonetics_prefix(b: Seq<u8>, p: int, xs: Seq<PhoneticView>, j: int)
    requires
        holds_at(b, p, enc_phonetics_items(xs)),
        0 <= j <= xs.len(),
    ensures
        holds_at(b, p, enc_phonetics_items(xs.take(j))),
    decreases xs.len(),
{
    if j == xs.len() {
        assert(xs.take(j) =~= xs);
    } else {
        lemma_holds_split(b, p, enc_phonetics_items(xs.drop_last()), enc_phonetic(xs.last()));
        lemma_phonetics_prefix(b, p, xs.drop_last(), j);
        assert(xs.drop_last().take(j) =~= xs.take(j));
    }
}

proof fn lemma_phonetics_items(b: Seq<u8>, p: int, xs: Seq<PhoneticView>, j: nat)
    requires
        holds_at(b, p, enc_phonetics_items(xs)),
        j <= xs.len(),
        forall|i: int| 0 <= i < xs.len() ==> #[trigger] phonetic_fits(xs[i]),
    ensures
        parse_phonetics_items(b, p, j) == Some(
            (xs.take(j as int), p + enc_phonetics_items(xs.take(j as int)).len()),
        ),
    decreases j,
{
    if j == 0 {
        assert(xs.take(0) =~= Seq::<PhoneticView>::empty());
    } else {
        lemma_phonetics_items(b, p, xs, (j - 1) as nat);
        let ys = xs.take(j as int);
        let zs = xs.take(j - 1);
        assert(ys.drop_last() =~= zs);
        assert(zs.push(xs[j - 1]) =~= ys);
        lemma_phonetics_prefix(b, p, xs, j as int);
        lemma_holds_split(b, p, enc_phonetics_items(zs), enc_phonetic(xs[j - 1]));
        lemma_phonetic(b, p + enc_phonetics_items(zs).len(), xs[j - 1]);
    }
}

proof fn lemma_phonetics(b: Seq<u8>, p: int, xs: Seq<PhoneticView>)
    requires
        holds_at(b, p, enc_phonetics(xs)),
        phonetics_fits(xs),
    ensures
        parse_phonetics(b, p) == Some((xs, p + enc_phonetics(xs).len())),
{
    lemma_holds_split(b, p, le8(xs.len() as u64), enc_phonetics_items(xs));
    lemma_le8(b, p, xs.len() as u64);
    lemma_phonetics_items(b, p + 8, xs, xs.len());
    assert(xs.take(xs.len() as int) =~= xs);
}

fn put_phonetics(out: &mut Vec<u8>, v: &Vec<Phonetic>)
    ensures
        final(out)@ == old(out)@ + enc_phonetics(phonetics_view(v@)),
        phonetics_fits(phonetics_view(v@)),
{
    let ghost start = out@;
    put_le8(out, v.len() as u64);
    let mut i: usize = 0;
    while i < v.len()
        invariant
            i <= v@.len(),
            out@ == start + le8(v@.len() as u64) + enc_phonetics_items(phonetics_view(v@.take(i as int))),
            forall|k: int| 0 <= k < i ==> #[trigger] phonetic_fits(phonetics_view(v@)[k]),
        decreases v@.len() - i,
    {
        put_phonetic(out, &v[i]);
        assert(phonetics_view(v@.take(i + 1)).drop_last() =~= phonetics_view(v@.take(i as int)));
        assert(phonetics_view(v@.take(i + 1)).last() == phonetics_view(v@)[i as int]);
        i += 1;
        assert(out@ =~= start + le8(v@.len() as u64) + enc_phonetics_items(phonetics_view(v@.take(i as int))));
    }
    assert(v@.take(i as int) =~= v@);
    assert(out@ =~= start + enc_phonetics(phonetics_view(v@)));
}

fn get_phonetics(b: &Vec<u8>, p: usize) -> (r: Option<(Vec<Phonetic>, usize)>)
    ensures
        match r {
            Some((v, q)) => parse_phonetics(b@, p as int) == Some((phonetics_view(v@), q as int)),
            None => parse_phonetics(b@, p as int) is None,
        },
{
    let (n, start) = match get_le8(b, p) {
        Some(x) => x,
        None => return None,
    };
    let mut q = start;
    let mut out: Vec<Phonetic> = Vec::new();
    let mut i: u64 = 0;
    assert(phonetics_view(out@) =~= Seq::<PhoneticView>::empty());
    while i < n
        invariant
            parse_le8(b@, p as int) == Some((n, start as int)),
            i <= n,
            parse_phonetics_items(b@, start as int, i as nat) == Some((phonetics_view(out@), q as int)),
        decreases n - i,
    {
        match get_phonetic(b, q) {
            Some((x, r)) => {
                let ghost prev = out@;
                out.push(x);
                assert(phonetics_view(out@) =~= phonetics_view(prev).push(x@));
                q = r;
                i += 1;
            },
            None => {
                proof {
                    lemma_phonetics_none(b@, start as int, (i + 1) as nat, n as nat);
                }
                return None;
            },
        }
    }
    Some((out, q))
}

pub open spec fn enc_meaning(m: MeaningView) -> Seq<u8> {
    enc_str(m.part_of_speech) + enc_defs(m.definitions) + enc_strs(m.synonyms) + enc_strs(
        m.antonyms,
    )
}

pub open spec fn parse_meaning(b: Seq<u8>, p: int) -> Option<(MeaningView, int)> {
    match parse_str(b, p) {
        Some((pos, at1)) => match parse_defs(b, at1) {
            Some((defs, at2)) => match parse_strs(b, at2) {
                Some((syn, at3)) => match parse_strs(b, at3) {
                    Some((ant, at4)) => Some(
                        (
                            MeaningView {
                                part_of_speech: pos,
                                definitions: defs,
                                synonyms: syn,
                                antonyms: ant,
                            },
                            at4,
                        ),
                    ),
                    None => None,
                },
                None => None,
            },
            None => None,
        },
        None => None,
    }
}

pub open spec fn meaning_fits(m: MeaningView) -> bool {
    str_fits(m.part_of_speech) && defs_fits(m.definitions) && strs_fits(m.synonyms) && strs_fits(
        m.antonyms,
    )
}

proof fn lemma_meaning(b: Seq<u8>, p: int, m: MeaningView)
    requires
        holds_at(b, p, enc_meaning(m)),
        meaning_fits(m),
    ensures
        parse_meaning(b, p) == Some((m, p + enc_meaning(m).len())),
{
    let a = enc_str(m.part_of_speech);
    let d = enc_defs(m.definitions);
    let s = enc_strs(m.synonyms);
    let t = enc_strs(m.antonyms);
    lemma_holds_split(b, p, a + d + s, t);
    lemma_holds_split(b, p, a + d, s);
    lemma_holds_split(b, p, a, d);
    lemma_str(b, p, m.part_of_speech);
    lemma_defs(b, p + a.len(), m.definitions);
    lemma_strs(b, p + a.len() + d.len(), m.synonyms);
    lemma_strs(b, p + a.len() + d.len() + s.len(), m.antonyms);
}

fn put_meaning(out: &mut Vec<u8>, m: &Meaning)
    ensures
        final(out)@ == old(out)@ + enc_meaning(m@),
        meaning_fits(m@),
{
    put_str(out, &m.part_of_speech);
    put_defs(out, &m.definitions);
    put_strs(out, &m.synonyms);
    put_strs(out, &m.antonyms);
    assert(final(out)@ =~= old(out)@ + enc_meaning(m@));
}

fn get_meaning(b: &Vec<u8>, p: usize) -> (r: Option<(Meaning, usize)>)
    ensures
        match r {
            Some((m, q)) => parse_meaning(b@, p as int) == Some((m@, q as int)),
            None => parse_meaning(b@, p as int) is None,
        },
{
    let (part_of_speech, at1) = match get_str(b, p) {
        Some(x) => x,
        None => return None,
    };
    let (definitions, at2) = match get_defs(b, at1) {
        Some(x) => x,
        None => return None,
    };
    let (synonyms, at3) = match get_strs(b, at2) {
        Some(x) => x,
        None => return None,
    };
    let (antonyms, at4) = match get_strs(b, at3) {
        Some(x) => x,
        None => return None,
    };
    Some((Meaning { part_of_speech, definitions, synonyms, antonyms }, at4))
}

pub open spec fn enc_meanings_items(xs: Seq<MeaningView>) -> Seq<u8>
    decreases xs.len(),
{
    if xs.len() == 0 {
        seq![]
    } else {
        enc_meanings_items(xs.drop_last()) + enc_meaning(xs.last())
    }
}

pub open spec fn enc_meanings(xs: Seq<MeaningView>) -> Seq<u8> {
    le8(xs.len() as u64) + enc_meanings_items(xs)
}

pub open spec fn parse_meanings_items(b: Seq<u8>, p: int, k: nat) -> Option<(Seq<MeaningView>, int)>
    decreases k,
{
    if k == 0 {
        Some((seq![], p))
    } else {
        match parse_meanings_items(b, p, (k - 1) as nat) {
            Some((xs, q)) => match parse_meaning(b, q) {
                Some((x, r)) => Some((xs.push(x), r)),
                None => None,
            },
            None => None,
        }
    }
}

pub open spec fn parse_meanings(b: Seq<u8>, p: int) -> Option<(Seq<MeaningView>, int)> {
    match parse_le8(b, p) {
        Some((n, q)) => parse_meanings_items(b, q, n as nat),
        None => None,
    }
}

pub open spec fn meanings_fits(xs: Seq<MeaningView>) -> bool {
    fits(xs.len()) && forall|i: int| 0 <= i < xs.len() ==> #[trigger] meaning_fits(xs[i])
}

proof fn lemma_meanings_none(b: Seq<u8>, p: int, j: nat, k: nat)
    requires
        j <= k,
        parse_meanings_items(b, p, j) is None,
    ensures
        parse_meanings_items(b, p, k) is None,
    decreases k,
{
    if k > j {
        lemma_meanings_none(b, p, j, (k - 1) as nat);
    }
}

proof fn lemma_meanings_prefix(b: Seq<u8>, p: int, xs: Seq<MeaningView>, j: int)
    requires
        holds_at(b, p, enc_meanings_items(xs)),
        0 <= j <= xs.len(),
    ensures
        holds_at(b, p, enc_meanings_items(xs.take(j))),
    decreases xs.len(),
{
    if j == xs.len() {
        assert(xs.take(j) =~= xs);
    } else {
        lemma_holds_split(b, p, enc_meanings_items(xs.drop_last()), enc_meaning(xs.last()));
        lemma_meanings_prefix(b, p, xs.drop_last(), j);
        assert(xs.drop_last().take(j) =~= xs.take(j));
    }
}

proof fn lemma_meanings_items(b: Seq<u8>, p: int, xs: Seq<MeaningView>, j: nat)
    requires
        holds_at(b, p, enc_meanings_items(xs)),
        j <= xs.len(),
        forall|i: int| 0 <= i < xs.len() ==> #[trigger] meaning_fits(xs[i]),
    ensures
        parse_meanings_items(b, p, j) == Some(
            (xs.take(j as int), p + enc_meanings_items(xs.take(j as int)).len()),
        ),
    decreases j,
{
    if j == 0 {
        assert(xs.take(0) =~= Seq::<MeaningView>::empty());
    } else {
        lemma_meanings_items(b, p, xs, (j - 1) as nat);
        let ys = xs.take(j as int);
        let zs = xs.take(j - 1);
        assert(ys.drop_last() =~= zs);
        assert(zs.push(xs[j - 1]) =~= ys);
        lemma_meanings_prefix(b, p, xs, j as int);
        lemma_holds_split(b, p, enc_meanings_items(zs), enc_meaning(xs[j - 1]));
        lemma_meaning(b, p + enc_meanings_items(zs).len(), xs[j - 1]);
    }
}

proof fn lemma_meanings(b: Seq<u8>, p: int, xs: Seq<MeaningView>)
    requires
        holds_at(b, p, enc_meanings(xs)),
        meanings_fits(xs),
    ensures
        parse_meanings(b, p) == Some((xs, p + enc_meanings(xs).len())),
{
    lemma_holds_split(b, p, le8(xs.len() as u64), enc_meanings_items(xs));
    lemma_le8(b, p, xs.len() as u64);
    lemma_meanings_items(b, p + 8, xs, xs.len());
    assert(xs.take(xs.len() as int) =~= xs);
}

fn put_meanings(out: &mut Vec<u8>, v: &Vec<Meaning>)
    ensures
        final(out)@ == old(out)@ + enc_meanings(meanings_view(v@)),
        meanings_fits(meanings_view(v@)),
{
    let ghost start = out@;
    put_le8(out, v.len() as u64);
    let mut i: usize = 0;
    while i < v.len()
        invariant
            i <= v@.len(),
            out@ == start + le8(v@.len() as u64) + enc_meanings_items(meanings_view(v@.take(i as int))),
            forall|k: int| 0 <= k < i ==> #[trigger] meaning_fits(meanings_view(v@)[k]),
        decreases v@.len() - i,
    {
        put_meaning(out, &v[i]);
        assert(meanings_view(v@.take(i + 1)).drop_last() =~= meanings_view(v@.take(i as int)));
        assert(meanings_view(v@.take(i + 1)).last() == meanings_view(v@)[i as int]);
        i += 1;
        assert(out@ =~= start + le8(v@.len() as u64) + enc_meanings_items(meanings_view(v@.take(i as int))));
    }
    assert(v@.take(i as int) =~= v@);
    assert(out@ =~= start + enc_meanings(meanings_view(v@)));
}

fn get_meanings(b: &Vec<u8>, p: usize) -> (r: Option<(Vec<Meaning>, usize)>)
    ensures
        match r {
            Some((v, q)) => parse_meanings(b@, p as int) == Some((meanings_view(v@), q as int)),
            None => parse_meanings(b@, p as int) is None,
        },
{
    let (n, start) = match get_le8(b, p) {
        Some(x) => x,
        None => return None,
    };
    let mut q = start;
    let mut out: Vec<Meaning> = Vec::new();
    let mut i: u64 = 0;
    assert(meanings_view(out@) =~= Seq::<MeaningView>::empty());
    while i < n
        invariant
            parse_le8(b@, p as int) == Some((n, start as int)),
            i <= n,
            parse_meanings_items(b@, start as int, i as nat) == Some((meanings_view(out@), q as int)),
        decreases n - i,
    {
        match get_meaning(b, q) {
            Some((x, r)) => {
                let ghost prev = out@;
                out.push(x);
                assert(meanings_view(out@) =~= meanings_view(prev).push(x@));
                q = r;
                i += 1;
            },
            None => {
                proof {
                    lemma_meanings_none(b@, start as int, (i + 1) as nat, n as nat);
                }
                return None;
            },
        }
    }
    Some((out, q))
}

/// The encoding of an entry: its word, then its phonetics, then its meanings.
#[verifier::opaque]
pub open spec fn enc_entry(e: EntryView) -> Seq<u8> {
    enc_str(e.word) + enc_phonetics(e.phonetics) + enc_meanings(e.meanings)
}

#[verifier::opaque]
pub open spec fn parse_entry(b: Seq<u8>, p: int) -> Option<(EntryView, int)> {
    match parse_str(b, p) {
        Some((word, at1)) => match parse_phonetics(b, at1) {
            Some((phonetics, at2)) => match parse_meanings(b, at2) {
                Some((meanings, at3)) => Some(
                    (EntryView { word, phonetics, meanings }, at3),
                ),
                None => None,
            },
            None => None,
        },
        None => None,
    }
}

/// Every length and count in `e` fits the eight-byte length fields.
pub open spec fn entry_fits(e: EntryView) -> bool {
    str_fits(e.word) && phonetics_fits(e.phonetics) && meanings_fits(e.meanings)
}

/// The entry that `b` holds, with nothing before or after it.
pub open spec fn decoded(b: Seq<u8>) -> Option<EntryView> {
    match parse_entry(b, 0) {
        Some((e, q)) => if q == b.len() {
            Some(e)
        } else {
            None
        },
        None => None,
    }
}

proof fn lemma_entry(b: Seq<u8>, p: int, e: EntryView)
    requires
        holds_at(b, p, enc_entry(e)),
        entry_fits(e),
    ensures
        parse_entry(b, p) == Some((e, p + enc_entry(e).len())),
{
    reveal(enc_entry);
    reveal(parse_entry);
    let a = enc_str(e.word);
    let f = enc_phonetics(e.phonetics);
    let m = enc_meanings(e.meanings);
    lemma_holds_split(b, p, a + f, m);
    lemma_holds_split(b, p, a, f);
    lemma_str(b, p, e.word);
    lemma_phonetics(b, p + a.len(), e.phonetics);
    lemma_meanings(b, p + a.len() + f.len(), e.meanings);
}

/// Encoding an entry and decoding the bytes gives back the same entry.
pub proof fn lemma_round_trip(e: EntryView)
    requires
        entry_fits(e),
    ensures
        decoded(enc_entry(e)) == Some(e),
{
    let b = enc_entry(e);
    assert(b.subrange(0, b.len() as int) =~= b);
    lemma_entry(b, 0, e);
}

fn put_entry(out: &mut Vec<u8>, e: &Entry)
    ensures
        final(out)@ == old(out)@ + enc_entry(e@),
        entry_fits(e@),
{
    reveal(enc_entry);
    put_str(out, &e.word);
    put_phonetics(out, &e.phonetics);
    put_meanings(out, &e.meanings);
    assert(final(out)@ =~= old(out)@ + enc_entry(e@));
}

fn get_entry(b: &Vec<u8>, p: usize) -> (r: Option<(Entry, usize)>)
    ensures
        match r {
            Some((e, q)) => parse_entry(b@, p as int) == Some((e@, q as int)),
            None => parse_entry(b@, p as int) is None,
        },
{
    reveal(parse_entry);
    let (word, at1) = match get_str(b, p) {
        Some(x) => x,
        None => return None,
    };
    let (phonetics, at2) = match get_phonetics(b, at1) {
        Some(x) => x,
        None => return None,
    };
    let (meanings, at3) = match get_meanings(b, at2) {
        Some(x) => x,
        None => return None,
    };
    Some((Entry { word, phonetics, meanings }, at3))
}

/// The bytes of one entry.
pub fn encode_entry(e: &Entry) -> (r: Vec<u8>)
    ensures
        r@ == enc_entry(e@),
        entry_fits(e@),
{
    let mut out: Vec<u8> = Vec::new();
    put_entry(&mut out, e);
    assert(out@ =~= enc_entry(e@));
    out
}

/// The entry that `b` holds in full, if `b` holds exactly one.
pub fn decode_entry(b: &Vec<u8>) -> (r: Option<Entry>)
    ensures
        match r {
            Some(e) => decoded(b@) == Some(e@),
            None => decoded(b@) is None,
        },
{
    match get_entry(b, 0) {
        Some((e, q)) => if q == b.len() {
            Some(e)
        } else {
            None
        },
        None => None,
    }
}

pub proof fn lemma_holds_join(b: Seq<u8>, p: int, x: Seq<u8>, y: Seq<u8>)
    requires
        holds_at(b, p, x),
        holds_at(b, p + x.len(), y),
    ensures
        holds_at(b, p, x + y),
{
    assert(b.subrange(p, p + (x + y).len()) =~= x + y) by {
        assert forall|i: int| 0 <= i < (x + y).len() implies b.subrange(p, p + (x + y).len())[i]
            == (x + y)[i] by {
            if i < x.len() {
                assert(b.subrange(p, p + x.len())[i] == x[i]);
            } else {
                assert(b.subrange(p + x.len(), p + x.len() + y.len())[i - x.len()] == y[i
                    - x.len()]);
            }
        }
    }
}

proof fn lemma_le8_sound(b: Seq<u8>, p: int)
    requires
        parse_le8(b, p) is Some,
    ensures
        ({
            let (n, q) = parse_le8(b, p)->Some_0;
            holds_at(b, p, le8(n)) && q == p + 8
        }),
{
    let (b0, b1, b2, b3, b4, b5, b6, b7) = (b[p], b[p + 1], b[p + 2], b[p + 3], b[p + 4], b[p
        + 5], b[p + 6], b[p + 7]);
    let n = join8(b0, b1, b2, b3, b4, b5, b6, b7);
    assert(n as u8 == b0 && (n >> 8u64) as u8 == b1 && (n >> 16u64) as u8 == b2 && (n
        >> 24u64) as u8 == b3 && (n >> 32u64) as u8 == b4 && (n >> 40u64) as u8 == b5 && (n
        >> 48u64) as u8 == b6 && (n >> 56u64) as u8 == b7) by (bit_vector)
        requires
            n == join8(b0, b1, b2, b3, b4, b5, b6, b7),
    ;
    assert(b.subrange(p, p + 8) =~= le8(n));
}

proof fn lemma_str_sound(b: Seq<u8>, p: int)
    requires
        parse_str(b, p) is Some,
    ensures
        ({
            let (s, q) = parse_str(b, p)->Some_0;
            holds_at(b, p, enc_str(s)) && q == p + enc_str(s).len()
        }),
{
    broadcast use decode_utf8_encode_utf8;

    lemma_le8_sound(b, p);
    let (n, q) = parse_le8(b, p)->Some_0;
    let u = b.subrange(q, q + n);
    assert(encode_utf8(decode_utf8(u)) == u);
    assert(b.subrange(q, q + u.len()) =~= u);
    lemma_holds_join(b, p, le8(n), u);
}

proof fn lemma_opt_sound(b: Seq<u8>, p: int)
    requires
        parse_opt(b, p) is Some,
    ensures
        ({
            let (o, q) = parse_opt(b, p)->Some_0;
            holds_at(b, p, enc_opt(o)) && q == p + enc_opt(o).len()
        }),
{
    assert(b.subrange(p, p + 1) =~= seq![b[p]]);
    if b[p] == 1 {
        lemma_str_sound(b, p + 1);
        let (s, q) = parse_str(b, p + 1)->Some_0;
        lemma_holds_join(b, p, seq![1u8], enc_str(s));
    }
}

proof fn lemma_phonetic_sound(b: Seq<u8>, p: int)
    requires
        parse_phonetic(b, p) is Some,
    ensures
        ({
            let (x, q) = parse_phonetic(b, p)->Some_0;
            holds_at(b, p, enc_phonetic(x)) && q == p + enc_phonetic(x).len()
        }),
{
    lemma_opt_sound(b, p);
}

proof fn lemma_def_sound(b: Seq<u8>, p: int)
    requires
        parse_def(b, p) is Some,
    ensures
        ({
            let (d, q) = parse_def(b, p)->Some_0;
            holds_at(b, p, enc_def(d)) && q == p + enc_def(d).len()
        }),
{
    lemma_str_sound(b, p);
    let (s, q) = parse_str(b, p)->Some_0;
    lemma_opt_sound(b, q);
    let (o, r) = parse_opt(b, q)->Some_0;
    lemma_holds_join(b, p, enc_str(s), enc_opt(o));
}

proof fn lemma_meaning_sound(b: Seq<u8>, p: int)
    requires
        parse_meaning(b, p) is Some,
    ensures
        ({
            let (m, q) = parse_meaning(b, p)->Some_0;
            holds_at(b, p, enc_meaning(m)) && q == p + enc_meaning(m).len()
        }),
{
    lemma_str_sound(b, p);
    let (pos, at1) = parse_str(b, p)->Some_0;
    lemma_defs_sound(b, at1);
    let (defs, at2) = parse_defs(b, at1)->Some_0;
    lemma_strs_sound(b, at2);
    let (syn, at3) = parse_strs(b, at2)->Some_0;
    lemma_strs_sound(b, at3);
    let (ant, at4) = parse_strs(b, at3)->Some_0;
    lemma_holds_join(b, p, enc_str(pos), enc_defs(defs));
    lemma_holds_join(b, p, enc_str(pos) + enc_defs(defs), enc_strs(syn));
    lemma_holds_join(b, p, enc_str(pos) + enc_defs(defs) + enc_strs(syn), enc_strs(ant));
}

proof fn lemma_entry_sound(b: Seq<u8>, p: int)
    requires
        parse_entry(b, p) is Some,
    ensures
        ({
            let (e, q) = parse_entry(b, p)->Some_0;
            holds_at(b, p, enc_entry(e)) && q == p + enc_entry(e).len()
        }),
{
    reveal(enc_entry);
    reveal(parse_entry);
    lemma_str_sound(b, p);
    let (word, at1) = parse_str(b, p)->Some_0;
    lemma_phonetics_sound(b, at1);
    let (ph, at2) = parse_phonetics(b, at1)->Some_0;
    lemma_meanings_sound(b, at2);
    let (ms, at3) = parse_meanings(b, at2)->Some_0;
    lemma_holds_join(b, p, enc_str(word), enc_phonetics(ph));
    lemma_holds_join(b, p, enc_str(word) + enc_phonetics(ph), enc_meanings(ms));
}

/// A byte string that decodes to an entry is exactly that entry's encoding: decoding
/// and encoding again gives back the same bytes.
pub proof fn lemma_reencode(b: Seq<u8>)
    requires
        decoded(b) is Some,
    ensures
        enc_entry(decoded(b)->Some_0) == b,
{
    lemma_entry_sound(b, 0);
    let e = decoded(b)->Some_0;
    assert(b.subrange(0, b.len() as int) =~= b);
}

proof fn lemma_strs_items_sound(b: Seq<u8>, p: int, k: nat)
    requires
        0 <= p <= b.len(),
        parse_strs_items(b, p, k) is Some,
    ensures
        ({
            let (xs, q) = parse_strs_items(b, p, k)->Some_0;
            holds_at(b, p, enc_strs_items(xs)) && q == p + enc_strs_items(xs).len() && xs.len() == k
        }),
    decreases k,
{
    if k == 0 {
        assert(b.subrange(p, p) =~= Seq::<u8>::empty());
    } else {
        lemma_strs_items_sound(b, p, (k - 1) as nat);
        let (ys, r) = parse_strs_items(b, p, (k - 1) as nat)->Some_0;
        lemma_str_sound(b, r);
        let (x, q) = parse_str(b, r)->Some_0;
        let xs = ys.push(x);
        assert(xs.drop_last() =~= ys);
        lemma_holds_join(b, p, enc_strs_items(ys), enc_str(x));
    }
}

proof fn lemma_strs_sound(b: Seq<u8>, p: int)
    requires
        parse_strs(b, p) is Some,
    ensures
        ({
            let (xs, q) = parse_strs(b, p)->Some_0;
            holds_at(b, p, enc_strs(xs)) && q == p + enc_strs(xs).len()
        }),
{
    lemma_le8_sound(b, p);
    let (n, q) = parse_le8(b, p)->Some_0;
    lemma_strs_items_sound(b, q, n as nat);
    let (xs, r) = parse_strs_items(b, q, n as nat)->Some_0;
    lemma_holds_join(b, p, le8(n), enc_strs_items(xs));
}

proof fn lemma_defs_items_sound(b: Seq<u8>, p: int, k: nat)
    requires
        0 <= p <= b.len(),
        parse_defs_items(b, p, k) is Some,
    ensures
        ({
            let (xs, q) = parse_defs_items(b, p, k)->Some_0;
            holds_at(b, p, enc_defs_items(xs)) && q == p + enc_defs_items(xs).len() && xs.len() == k
        }),
    decreases k,
{
    if k == 0 {
        assert(b.subrange(p, p) =~= Seq::<u8>::empty());
    } else {
        lemma_defs_items_sound(b, p, (k - 1) as nat);
        let (ys, r) = parse_defs_items(b, p, (k - 1) as nat)->Some_0;
        lemma_def_sound(b, r);
        let (x, q) = parse_def(b, r)->Some_0;
        let xs = ys.push(x);
        assert(xs.drop_last() =~= ys);
        lemma_holds_join(b, p, enc_defs_items(ys), enc_def(x));
    }
}

proof fn lemma_defs_sound(b: Seq<u8>, p: int)
    requires
        parse_defs(b, p) is Some,
    ensures
        ({
            let (xs, q) = parse_defs(b, p)->Some_0;
            holds_at(b, p, enc_defs(xs)) && q == p + enc_defs(xs).len()
        }),
{
    lemma_le8_sound(b, p);
    let (n, q) = parse_le8(b, p)->Some_0;
    lemma_defs_items_sound(b, q, n as nat);
    let (xs, r) = parse_defs_items(b, q, n as nat)->Some_0;
    lemma_holds_join(b, p, le8(n), enc_defs_items(xs));
}

proof fn lemma_phonetics_items_sound(b: Seq<u8>, p: int, k: nat)
    requires
        0 <= p <= b.len(),
        parse_phonetics_items(b, p, k) is Some,
    ensures
        ({
            let (xs, q) = parse_phonetics_items(b, p, k)->Some_0;
            holds_at(b, p, enc_phonetics_items(xs)) && q == p + enc_phonetics_items(xs).len() && xs.len() == k
        }),
    decreases k,
{
    if k == 0 {
        assert(b.subrange(p, p) =~= Seq::<u8>::empty());
    } else {
        lemma_phonetics_items_sound(b, p, (k - 1) as nat);
        let (ys, r) = parse_phonetics_items(b, p, (k - 1) as nat)->Some_0;
        lemma_phonetic_sound(b, r);
        let (x, q) = parse_phonetic(b, r)->Some_0;
        let xs = ys.push(x);
        assert(xs.drop_last() =~= ys);
        lemma_holds_join(b, p, enc_phonetics_items(ys), enc_phonetic(x));
    }
}

proof fn lemma_phonetics_sound(b: Seq<u8>, p: int)
    requires
        parse_phonetics(b, p) is Some,
    ensures
        ({
            let (xs, q) = parse_phonetics(b, p)->Some_0;
            holds_at(b, p, enc_phonetics(xs)) && q == p + enc_phonetics(xs).len()
        }),
{
    lemma_le8_sound(b, p);
    let (n, q) = parse_le8(b, p)->Some_0;
    lemma_phonetics_items_sound(b, q, n as nat);
    let (xs, r) = parse_phonetics_items(b, q, n as nat)->Some_0;
    lemma_holds_join(b, p, le8(n), enc_phonetics_items(xs));
}

proof fn lemma_meanings_items_sound(b: Seq<u8>, p: int, k: nat)
    requires
        0 <= p <= b.len(),
        parse_meanings_items(b, p, k) is Some,
    ensures
        ({
            let (xs, q) = parse_meanings_items(b, p, k)->Some_0;
            holds_at(b, p, enc_meanings_items(xs)) && q == p + enc_meanings_items(xs).len() && xs.len() == k
        }),
    decreases k,
{
    if k == 0 {
        assert(b.subrange(p, p) =~= Seq::<u8>::empty());
    } else {
        lemma_meanings_items_sound(b, p, (k - 1) as nat);
        let (ys, r) = parse_meanings_items(b, p, (k - 1) as nat)->Some_0;
        lemma_meaning_sound(b, r);
        let (x, q) = parse_meaning(b, r)->Some_0;
        let xs = ys.push(x);
        assert(xs.drop_last() =~= ys);
        lemma_holds_join(b, p, enc_meanings_items(ys), enc_meaning(x));
    }
}

proof fn lemma_meanings_sound(b: Seq<u8>, p: int)
    requires
        parse_meanings(b, p) is Some,
    ensures
        ({
            let (xs, q) = parse_meanings(b, p)->Some_0;
            holds_at(b, p, enc_meanings(xs)) && q == p + enc_meanings(xs).len()
        }),
{
    lemma_le8_sound(b, p);
    let (n, q) = parse_le8(b, p)->Some_0;
    lemma_meanings_items_sound(b, q, n as nat);
    let (xs, r) = parse_meanings_items(b, q, n as nat)->Some_0;
    lemma_holds_join(b, p, le8(n), enc_meanings_items(xs));
}

/// One record of the store file: an entry's bytes framed by their length, so that a
/// record cut short by an interrupted write can be recognised.
pub open spec fn enc_record(e: EntryView) -> Seq<u8> {
    enc_bytes(enc_entry(e))
}

pub open spec fn enc_records(rs: Seq<EntryView>) -> Seq<u8>
    decreases rs.len(),
{
    if rs.len() == 0 {
        seq![]
    } else {
        enc_record(rs[0]) + enc_records(rs.drop_first())
    }
}

pub open spec fn record_fits(e: EntryView) -> bool {
    entry_fits(e) && fits(enc_entry(e).len())
}

pub open spec fn records_fit(rs: Seq<EntryView>) -> bool {
    forall|i: int| 0 <= i < rs.len() ==> #[trigger] record_fits(rs[i])
}

/// The records from position `p` on, and where the last complete one ends. A final
/// record whose header or body runs past the end of `b` is torn and is left out; a
/// complete frame whose body is not exactly one entry makes the whole read fail.
pub open spec fn parse_records(b: Seq<u8>, p: int) -> Option<(Seq<EntryView>, int)>
    decreases b.len() - p,
{
    match parse_le8(b, p) {
        None => Some((seq![], p)),
        Some((n, q)) => if q + n > b.len() {
            Some((seq![], p))
        } else {
            match parse_entry(b, q) {
                Some((e, r)) => if r == q + n {
                    match parse_records(b, q + n) {
                        Some((rs, end)) => Some((seq![e] + rs, end)),
                        None => None,
                    }
                } else {
                    None
                },
                None => None,
            }
        },
    }
}

/// Position `p` of `b` starts no complete frame: fewer than eight bytes remain, or
/// the length in the header runs past the end.
pub open spec fn torn_at(b: Seq<u8>, p: int) -> bool {
    match parse_le8(b, p) {
        None => true,
        Some((n, q)) => q + n > b.len(),
    }
}

pub open spec fn prepend(
    acc: Seq<EntryView>,
    r: Option<(Seq<EntryView>, int)>,
) -> Option<(Seq<EntryView>, int)> {
    match r {
        Some((rs, end)) => Some((acc + rs, end)),
        None => None,
    }
}

pub proof fn lemma_records_push(rs: Seq<EntryView>, e: EntryView)
    ensures
        enc_records(rs.push(e)) == enc_records(rs) + enc_record(e),
    decreases rs.len(),
{
    let s = rs.push(e);
    let z = enc_record(e);
    if rs.len() == 0 {
        assert(s.drop_first() =~= Seq::<EntryView>::empty());
        assert(s[0] == e);
        assert(enc_records(s) == z + enc_records(s.drop_first()));
        assert(z + Seq::<u8>::empty() =~= z);
        assert(Seq::<u8>::empty() + z =~= z);
    } else {
        let x = enc_record(rs[0]);
        let y = enc_records(rs.drop_first());
        assert(s.drop_first() =~= rs.drop_first().push(e));
        assert(s[0] == rs[0]);
        lemma_records_push(rs.drop_first(), e);
        assert(enc_records(s) == x + enc_records(s.drop_first()));
        assert(enc_records(rs) == x + y);
        assert(x + (y + z) =~= (x + y) + z);
    }
}

proof fn lemma_records_at(b: Seq<u8>, p: int, rs: Seq<EntryView>)
    requires
        holds_at(b, p, enc_records(rs)),
        records_fit(rs),
        torn_at(b, p + enc_records(rs).len()),
    ensures
        parse_records(b, p) == Some((rs, p + enc_records(rs).len())),
    decreases rs.len(),
{
    if rs.len() > 0 {
        let e = rs[0];
        let x = enc_entry(e);
        assert(record_fits(rs[0]));
        lemma_holds_split(b, p, enc_record(e), enc_records(rs.drop_first()));
        lemma_holds_split(b, p, le8(x.len() as u64), x);
        lemma_le8(b, p, x.len() as u64);
        lemma_entry(b, p + 8, e);
        assert forall|i: int| 0 <= i < rs.drop_first().len() implies #[trigger] record_fits(
            rs.drop_first()[i],
        ) by {
            assert(record_fits(rs[i + 1]));
        }
        lemma_records_at(b, p + enc_record(e).len(), rs.drop_first());
        assert(seq![e] + rs.drop_first() =~= rs);
    }
}

/// Reading back the bytes of a sequence of records gives the same records, all of the
/// bytes being used.
pub proof fn lemma_records_round_trip(rs: Seq<EntryView>)
    requires
        records_fit(rs),
    ensures
        parse_records(enc_records(rs), 0) == Some((rs, enc_records(rs).len() as int)),
{
    let b = enc_records(rs);
    assert(b.subrange(0, b.len() as int) =~= b);
    lemma_records_at(b, 0, rs);
}

/// Complete records followed by the first part of one more record, as an interrupted
/// write leaves them, read back as the complete records alone; reading ends where
/// they end.
pub proof fn lemma_torn_tail(rs: Seq<EntryView>, e: EntryView, tail: Seq<u8>)
    requires
        records_fit(rs),
        record_fits(e),
        tail.len() < enc_record(e).len(),
        tail == enc_record(e).take(tail.len() as int),
    ensures
        parse_records(enc_records(rs) + tail, 0) == Some((rs, enc_records(rs).len() as int)),
{
    let a = enc_records(rs);
    let b = a + tail;
    let l = a.len() as int;
    assert(b.subrange(0, l) =~= a);
    if tail.len() >= 8 {
        let n = enc_entry(e).len() as u64;
        assert(b.subrange(l, l + 8) =~= le8(n)) by {
            assert forall|i: int| 0 <= i < 8 implies b.subrange(l, l + 8)[i] == le8(n)[i] by {
                assert(b[l + i] == tail[i]);
                assert(tail[i] == enc_record(e)[i]);
            }
        }
        lemma_le8(b, l, n);
    }
    lemma_records_at(b, 0, rs);
}

proof fn lemma_records_sound(b: Seq<u8>, p: int)
    requires
        0 <= p <= b.len(),
        parse_records(b, p) is Some,
    ensures
        ({
            let (rs, end) = parse_records(b, p)->Some_0;
            holds_at(b, p, enc_records(rs)) && end == p + enc_records(rs).len()
        }),
    decreases b.len() - p,
{
    match parse_le8(b, p) {
        None => {
            assert(b.subrange(p, p) =~= Seq::<u8>::empty());
        },
        Some((n, q)) => {
            if q + n > b.len() {
                assert(b.subrange(p, p) =~= Seq::<u8>::empty());
            } else {
                lemma_le8_sound(b, p);
                lemma_entry_sound(b, q);
                let (e, r) = parse_entry(b, q)->Some_0;
                lemma_records_sound(b, q + n);
                let (rest, end) = parse_records(b, q + n)->Some_0;
                lemma_holds_join(b, p, le8(n), enc_entry(e));
                lemma_holds_join(b, p, enc_record(e), enc_records(rest));
                let rs = seq![e] + rest;
                assert(rs[0] == e);
                assert(rs.drop_first() =~= rest);
            }
        },
    }
}

/// The bytes that a store file starts with are exactly the encoding of the records
/// read from it, up to where the last complete one ends.
pub proof fn lemma_records_prefix(b: Seq<u8>)
    requires
        parse_records(b, 0) is Some,
    ensures
        ({
            let (rs, end) = parse_records(b, 0)->Some_0;
            b.subrange(0, end) == enc_records(rs)
        }),
{
    lemma_records_sound(b, 0);
}

proof fn lemma_records_concat(a: Seq<EntryView>, c: Seq<EntryView>)
    ensures
        enc_records(a + c) == enc_records(a) + enc_records(c),
    decreases a.len(),
{
    if a.len() == 0 {
        assert(a + c =~= c);
        assert(Seq::<u8>::empty() + enc_records(c) =~= enc_records(c));
    } else {
        assert((a + c).drop_first() =~= a.drop_first() + c);
        assert((a + c)[0] == a[0]);
        lemma_records_concat(a.drop_first(), c);
        let x = enc_record(a[0]);
        assert(x + (enc_records(a.drop_first()) + enc_records(c)) =~= (x + enc_records(
            a.drop_first(),
        )) + enc_records(c));
    }
}

/// A store file holding the encoding of some records, with the encoding of more
/// records written after it, reads back as the first records followed by the others.
pub proof fn lemma_reopen_after_append(rs: Seq<EntryView>, added: Seq<EntryView>)
    requires
        records_fit(rs),
        records_fit(added),
    ensures
        parse_records(enc_records(rs) + enc_records(added), 0) == Some(
            (rs + added, (enc_records(rs) + enc_records(added)).len() as int),
        ),
{
    lemma_records_concat(rs, added);
    assert forall|i: int| 0 <= i < (rs + added).len() implies #[trigger] record_fits(
        (rs + added)[i],
    ) by {
        if i < rs.len() {
            assert(record_fits(rs[i]));
        } else {
            assert(record_fits(added[i - rs.len()]));
        }
    }
    lemma_records_round_trip(rs + added);
}

fn put_record(out: &mut Vec<u8>, e: &Entry)
    ensures
        final(out)@ == old(out)@ + enc_record(e@),
        record_fits(e@),
{
    let body = encode_entry(e);
    let ghost start = out@;
    put_le8(out, body.len() as u64);
    let mut i: usize = 0;
    while i < body.len()
        invariant
            i <= body@.len(),
            out@ == start + le8(body@.len() as u64) + body@.subrange(0, i as int),
        decreases body@.len() - i,
    {
        out.push(body[i]);
        i += 1;
        assert(out@ =~= start + le8(body@.len() as u64) + body@.subrange(0, i as int));
    }
    assert(body@.subrange(0, i as int) =~= body@);
    assert(out@ =~= start + enc_record(e@));
}

/// The bytes of a sequence of records, in the order given.
pub fn encode_records(v: &Vec<Entry>) -> (r: Vec<u8>)
    ensures
        r@ == enc_records(entries_view(v@)),
        records_fit(entries_view(v@)),
{
    let mut out: Vec<u8> = Vec::new();
    let mut i: usize = 0;
    assert(entries_view(v@.take(0)) =~= Seq::<EntryView>::empty());
    while i < v.len()
        invariant
            i <= v@.len(),
            out@ == enc_records(entries_view(v@.take(i as int))),
            forall|k: int| 0 <= k < i ==> #[trigger] record_fits(entries_view(v@)[k]),
        decreases v@.len() - i,
    {
        put_record(&mut out, &v[i]);
        proof {
            assert(entries_view(v@.take(i + 1)) =~= entries_view(v@.take(i as int)).push(v@[i as int]@));
            lemma_records_push(entries_view(v@.take(i as int)), v@[i as int]@);
        }
        i += 1;
    }
    assert(v@.take(i as int) =~= v@);
    out
}

/// Reads the records of a store file: `None` where a complete frame does not hold
/// exactly one entry; otherwise the records and where the last complete one ends.
pub fn decode_records(b: &Vec<u8>) -> (r: Option<(Vec<Entry>, usize)>)
    ensures
        match r {
            Some((v, end)) => parse_records(b@, 0) == Some((entries_view(v@), end as int)),
            None => parse_records(b@, 0) is None,
        },
{
    let mut p: usize = 0;
    let mut out: Vec<Entry> = Vec::new();
    assert(entries_view(out@) =~= Seq::<EntryView>::empty());
    loop
        invariant
            p <= b@.len(),
            parse_records(b@, 0) == prepend(entries_view(out@), parse_records(b@, p as int)),
        decreases b@.len() - p,
    {
        let (n, q) = match get_le8(b, p) {
            Some(x) => x,
            None => {
                assert(entries_view(out@) + seq![] =~= entries_view(out@));
                return Some((out, p));
            },
        };
        if n > (b.len() - q) as u64 {
            assert(entries_view(out@) + seq![] =~= entries_view(out@));
            return Some((out, p));
        }
        let end = q + n as usize;
        match get_entry(b, q) {
            Some((e, r)) => {
                if r != end {
                    return None;
                }
                let ghost prev = entries_view(out@);
                out.push(e);
                assert(entries_view(out@) =~= prev.push(e@));
                proof {
                    match parse_records(b@, end as int) {
                        Some((rs, k)) => {
                            assert(prev + (seq![e@] + rs) =~= prev.push(e@) + rs);
                        },
                        None => {},
                    }
                }
                p = end;
            },
            None => {
                return None;
            },
        }
    }
}

} // verus!
