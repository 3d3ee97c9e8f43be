//! Byte-level parsing of the line-oriented graph input format: one line
//! per vertex, tab-separated fields; the first field is the vertex's own
//! 1-based id, each further field a comma-separated `neighbour,weight`
//! pair. Lines are separated by newline bytes, with an optional trailing
//! newline; any other shape is rejected.

use vstd::prelude::*;

verus! {

/// A decimal digit byte.
pub open spec fn is_digit(b: u8) -> bool {
    48 <= b <= 57
}

/// The value of a digit string, most significant digit first.
pub open spec fn num_val(s: Seq<u8>) -> int
    decreases s.len(),
{
    if s.len() == 0 {
        0
    } else {
        num_val(s.drop_last()) * 10 + (s.last() - 48)
    }
}

/// A well-formed numeral: non-empty, all digits, value representable.
pub open spec fn valid_num(s: Seq<u8>) -> bool {
    &&& s.len() > 0
    &&& forall|i: int| 0 <= i < s.len() ==> is_digit(#[trigger] s[i])
    &&& num_val(s) <= usize::MAX
}

/// The pieces of a byte string between occurrences of a separator; a
/// string of `n` separators has `n + 1` pieces, empty ones included.
pub open spec fn split_at(s: Seq<u8>, sep: u8) -> Seq<Seq<u8>>
    decreases s.len(),
{
    if s.len() == 0 {
        seq![Seq::<u8>::empty()]
    } else if s[0] == sep {
        seq![Seq::<u8>::empty()] + split_at(s.drop_first(), sep)
    } else {
        let r = split_at(s.drop_first(), sep);
        seq![seq![s[0]] + r[0]] + r.drop_first()
    }
}

/// The lines of a text: the pieces between newline bytes, a trailing
/// newline closing the last line rather than opening an empty one.
pub open spec fn lines_of(s: Seq<u8>) -> Seq<Seq<u8>> {
    if s.len() == 0 {
        Seq::empty()
    } else {
        let p = split_at(s, 10);
        if p.last().len() == 0 {
            p.drop_last()
        } else {
            p
        }
    }
}

/// An adjacency field: exactly two numerals around one comma.
pub open spec fn parse_pair(s: Seq<u8>) -> Option<(usize, usize)> {
    let ps = split_at(s, 44);
    if ps.len() == 2 && valid_num(ps[0]) && valid_num(ps[1]) {
        Some(((num_val(ps[0]) as usize), (num_val(ps[1]) as usize)))
    } else {
        None
    }
}

/// A sequence of adjacency fields, all of which must parse.
pub open spec fn parse_pairs(fs: Seq<Seq<u8>>) -> Option<Seq<(usize, usize)>>
    decreases fs.len(),
{
    if fs.len() == 0 {
        Some(Seq::empty())
    } else {
        match (parse_pairs(fs.drop_last()), parse_pair(fs.last())) {
            (Some(acc), Some(p)) => Some(acc.push(p)),
            _ => None,
        }
    }
}

/// A vertex line: the expected 1-based id, then its adjacency fields.
pub open spec fn parse_line(s: Seq<u8>, expect: int) -> Option<Seq<(usize, usize)>> {
    let fs = split_at(s, 9);
    if valid_num(fs[0]) && num_val(fs[0]) == expect {
        parse_pairs(fs.drop_first())
    } else {
        None
    }
}

/// A sequence of vertex lines, the `k`th declaring id `k + 1`.
pub open spec fn parse_lines(ls: Seq<Seq<u8>>) -> Option<Seq<Seq<(usize, usize)>>>
    decreases ls.len(),
{
    if ls.len() == 0 {
        Some(Seq::empty())
    } else {
        match (parse_lines(ls.drop_last()), parse_line(ls.last(), ls.len() as int)) {
            (Some(acc), Some(l)) => Some(acc.push(l)),
            _ => None,
        }
    }
}

/// The whole input: the adjacency structure its lines declare.
pub open spec fn parse_graph(bytes: Seq<u8>) -> Option<Seq<Seq<(usize, usize)>>> {
    parse_lines(lines_of(bytes))
}

/// A separator-free string is a single piece.
proof fn lemma_split_no_sep(p: Seq<u8>, sep: u8)
    requires
        forall|i: int| 0 <= i < p.len() ==> (#[trigger] p[i]) != sep,
    ensures
        split_at(p, sep) == seq![p],
    decreases p.len(),
{
    if p.len() == 0 {
        assert(p =~= Seq::<u8>::empty());
        assert(split_at(p, sep) =~= seq![p]);
    } else {
        assert(p[0] != sep);
        lemma_split_no_sep(p.drop_first(), sep);
        assert(split_at(p, sep) =~= seq![seq![p[0]] + p.drop_first()]);
        assert(seq![p[0]] + p.drop_first() =~= p);
        assert(split_at(p, sep) =~= seq![p]);
    }
}

/// Splitting a string that opens with a separator-free piece and a
/// separator yields that piece and the split of the rest.
proof fn lemma_split_sep(p: Seq<u8>, rest: Seq<u8>, sep: u8)
    requires
        forall|i: int| 0 <= i < p.len() ==> (#[trigger] p[i]) != sep,
    ensures
        split_at(p + seq![sep] + rest, sep) == seq![p] + split_at(rest, sep),
    decreases p.len(),
{
    let s = p + seq![sep] + rest;
    if p.len() == 0 {
        assert(p =~= Seq::<u8>::empty());
        assert(s[0] == sep);
        assert(s.drop_first() =~= rest);
        assert(split_at(s, sep) =~= seq![p] + split_at(rest, sep));
    } else {
        assert(s[0] == p[0]);
        assert(p[0] != sep);
        assert(s.drop_first() =~= p.drop_first() + seq![sep] + rest);
        lemma_split_sep(p.drop_first(), rest, sep);
        let r = split_at(s.drop_first(), sep);
        assert(r == seq![p.drop_first()] + split_at(rest, sep));
        assert(r[0] == p.drop_first());
        assert(seq![s[0]] + r[0] =~= p);
        assert(r.drop_first() =~= split_at(rest, sep));
        assert(split_at(s, sep) =~= seq![p] + split_at(rest, sep));
    }
}

/// Digit strings have non-negative values.
proof fn lemma_num_nonneg(s: Seq<u8>)
    requires
        forall|i: int| 0 <= i < s.len() ==> is_digit(#[trigger] s[i]),
    ensures
        num_val(s) >= 0,
    decreases s.len(),
{
    if s.len() > 0 {
        lemma_num_nonneg(s.drop_last());
        assert(is_digit(s.last()));
    }
}

/// A digit string is worth at least any of its prefixes.
proof fn lemma_num_prefix(s: Seq<u8>, i: int)
    requires
        forall|j: int| 0 <= j < s.len() ==> is_digit(#[trigger] s[j]),
        0 <= i <= s.len(),
    ensures
        num_val(s.take(i)) <= num_val(s),
    decreases s.len(),
{
    if i == s.len() {
        assert(s.take(i) =~= s);
    } else {
        assert(s.take(i) =~= s.drop_last().take(i));
        lemma_num_prefix(s.drop_last(), i);
        lemma_num_nonneg(s.drop_last());
        assert(is_digit(s.last()));
        assert(num_val(s) >= num_val(s.drop_last()));
    }
}

/// A failing adjacency field fails its whole sequence.
proof fn lemma_parse_pairs_none(fs: Seq<Seq<u8>>, i: int)
    requires
        0 <= i < fs.len(),
        parse_pair(fs[i]) is None,
    ensures
        parse_pairs(fs) is None,
    decreases fs.len(),
{
    if i < fs.len() - 1 {
        assert(fs.drop_last()[i] == fs[i]);
        lemma_parse_pairs_none(fs.drop_last(), i);
    }
}

/// A failing line fails the whole input.
pub(crate) proof fn lemma_parse_lines_none(ls: Seq<Seq<u8>>, i: int)
    requires
        0 <= i < ls.len(),
        parse_line(ls[i], i + 1) is None,
    ensures
        parse_lines(ls) is None,
    decreases ls.len(),
{
    if i < ls.len() - 1 {
        assert(ls.drop_last()[i] == ls[i]);
        lemma_parse_lines_none(ls.drop_last(), i);
    }
}

/// Splits a byte string at every occurrence of the separator.
pub(crate) fn split_all(s: &Vec<u8>, sep: u8) -> (r: Vec<Vec<u8>>)
    ensures
        r@.map_values(|v: Vec<u8>| v@) == split_at(s@, sep),
        r@.len() >= 1,
{
    let mut pieces: Vec<Vec<u8>> = Vec::new();
    let mut cur: Vec<u8> = Vec::new();
    let mut j: usize = 0;
    proof {
        assert(Seq::<u8>::empty() + s@.skip(0) =~= s@);
        assert(pieces@.map_values(|v: Vec<u8>| v@) =~= Seq::<Seq<u8>>::empty());
    }
    while j < s.len()
        invariant
            j <= s@.len(),
            forall|t: int| 0 <= t < cur@.len() ==> (#[trigger] cur@[t]) != sep,
            split_at(s@, sep) == pieces@.map_values(|v: Vec<u8>| v@) + split_at(
                cur@ + s@.skip(j as int),
                sep,
            ),
        decreases s@.len() - j,
    {
        let b = s[j];
        if b == sep {
            let ghost pre_pieces = pieces@;
            let ghost pre_cur = cur@;
            pieces.push(cur);
            cur = Vec::new();
            proof {
                assert(pre_cur + s@.skip(j as int) =~= pre_cur + seq![sep] + s@.skip(j + 1));
                lemma_split_sep(pre_cur, s@.skip(j + 1), sep);
                assert(pieces@.map_values(|v: Vec<u8>| v@) =~= pre_pieces.map_values(
                    |v: Vec<u8>| v@,
                ).push(pre_cur));
                assert(pre_pieces.map_values(|v: Vec<u8>| v@) + (seq![pre_cur] + split_at(
                    s@.skip(j + 1),
                    sep,
                )) =~= pieces@.map_values(|v: Vec<u8>| v@) + split_at(
                    Seq::<u8>::empty() + s@.skip(j + 1),
                    sep,
                )) by {
                    assert(Seq::<u8>::empty() + s@.skip(j + 1) =~= s@.skip(j + 1));
                }
            }
        } else {
            let ghost pre_cur = cur@;
            cur.push(b);
            proof {
                assert(cur@ + s@.skip(j + 1) =~= pre_cur + s@.skip(j as int));
            }
        }
        j += 1;
    }
    let ghost pre_pieces = pieces@;
    let ghost pre_cur = cur@;
    pieces.push(cur);
    proof {
        assert(pre_cur + s@.skip(s@.len() as int) =~= pre_cur);
        lemma_split_no_sep(pre_cur, sep);
        assert(pieces@.map_values(|v: Vec<u8>| v@) =~= pre_pieces.map_values(
            |v: Vec<u8>| v@,
        ).push(pre_cur));
        assert(pieces@.map_values(|v: Vec<u8>| v@) =~= split_at(s@, sep));
    }
    pieces
}

/// Parses a numeral, rejecting anything but digits and any value beyond
/// the representable range.
pub(crate) fn parse_num(s: &Vec<u8>) -> (r: Option<usize>)
    ensures
        match r {
            Some(v) => valid_num(s@) && v == num_val(s@),
            None => !valid_num(s@),
        },
{
    if s.len() == 0 {
        return None;
    }
    let mut acc: usize = 0;
    let mut i: usize = 0;
    proof {
        assert(s@.take(0) =~= Seq::<u8>::empty());
    }
    while i < s.len()
        invariant
            i <= s@.len(),
            s@.len() > 0,
            forall|t: int| 0 <= t < i ==> is_digit(#[trigger] s@[t]),
            acc == num_val(s@.take(i as int)),
        decreases s@.len() - i,
    {
        let b = s[i];
        if b < 48 || b > 57 {
            return None;
        }
        let d = (b - 48) as usize;
        proof {
            assert(s@.take(i + 1).drop_last() =~= s@.take(i as int));
            assert(s@.take(i + 1).last() == s@[i as int]);
        }
        if acc > (usize::MAX - d) / 10 {
            // the numeral's value exceeds the representable range
            proof {
                assert(acc * 10 + d > usize::MAX) by (nonlinear_arith)
                    requires
                        acc > (usize::MAX - d) / 10,
                        d <= 9,
                ;
                if forall|t: int| 0 <= t < s@.len() ==> is_digit(#[trigger] s@[t]) {
                    lemma_num_prefix(s@, i + 1);
                    assert(num_val(s@) > usize::MAX);
                }
            }
            return None;
        }
        proof {
            assert(acc * 10 + d <= usize::MAX) by (nonlinear_arith)
                requires
                    acc <= (usize::MAX - d) / 10,
                    d <= 9,
            ;
        }
        acc = acc * 10 + d;
        i += 1;
    }
    proof {
        assert(s@.take(s@.len() as int) =~= s@);
    }
    Some(acc)
}

/// Parses one `neighbour,weight` adjacency field.
fn parse_pair_exec(s: &Vec<u8>) -> (r: Option<(usize, usize)>)
    ensures
        r == parse_pair(s@),
{
    let ps = split_all(s, 44);
    proof {
        assert(ps@.map_values(|v: Vec<u8>| v@).len() == ps@.len());
    }
    if ps.len() != 2 {
        return None;
    }
    proof {
        assert(ps@.map_values(|v: Vec<u8>| v@)[0] == ps@[0]@);
        assert(ps@.map_values(|v: Vec<u8>| v@)[1] == ps@[1]@);
    }
    let a = parse_num(&ps[0]);
    let b = parse_num(&ps[1]);
    match (a, b) {
        (Some(x), Some(y)) => Some((x, y)),
        _ => None,
    }
}

/// Parses one vertex line against its expected 1-based id, returning
/// its adjacency pairs.
pub(crate) fn parse_line_exec(s: &Vec<u8>, expect: usize) -> (r: Option<Vec<(usize, usize)>>)
    ensures
        match r {
            Some(v) => parse_line(s@, expect as int) == Some(v@),
            None => parse_line(s@, expect as int) is None,
        },
{
    let fs = split_all(s, 9);
    let ghost fields = split_at(s@, 9);
    proof {
        assert(fields.len() == fs@.len());
        assert(fs@.map_values(|v: Vec<u8>| v@)[0] == fs@[0]@);
    }
    let id = match parse_num(&fs[0]) {
        None => {
            return None;
        },
        Some(v) => v,
    };
    if id != expect {
        return None;
    }
    let ghost rest = fields.drop_first();
    let mut pairs: Vec<(usize, usize)> = Vec::new();
    let mut i: usize = 1;
    proof {
        assert(rest.take(0) =~= Seq::<Seq<u8>>::empty());
    }
    while i < fs.len()
        invariant
            1 <= i <= fs@.len(),
            fields == split_at(s@, 9),
            fields.len() == fs@.len(),
            rest == fields.drop_first(),
            forall|t: int|
                0 <= t < fs@.len() ==> (#[trigger] fs@[t])@ == fields[t],
            parse_pairs(rest.take(i - 1)) == Some(pairs@),
        decreases fs@.len() - i,
    {
        let p = parse_pair_exec(&fs[i]);
        match p {
            None => {
                proof {
                    assert(rest[i - 1] == fields[i as int]);
                    lemma_parse_pairs_none(rest, i - 1);
                }
                return None;
            },
            Some(pv) => {
                let ghost pre_pairs = pairs@;
                pairs.push(pv);
                proof {
                    assert(rest.take(i as int).drop_last() =~= rest.take(i - 1));
                    assert(rest.take(i as int).last() == rest[i - 1]);
                    assert(rest[i - 1] == fields[i as int]);
                    assert(parse_pairs(rest.take(i as int)) == Some(pairs@));
                }
            },
        }
        i += 1;
    }
    proof {
        assert(rest.take(rest.len() as int) =~= rest);
    }
    Some(pairs)
}

/// The lines of a byte text, as `lines_of` describes them.
pub(crate) fn lines_exec(bytes: &Vec<u8>) -> (r: Vec<Vec<u8>>)
    ensures
        r@.map_values(|v: Vec<u8>| v@) == lines_of(bytes@),
{
    if bytes.len() == 0 {
        let r: Vec<Vec<u8>> = Vec::new();
        proof {
            assert(r@.map_values(|v: Vec<u8>| v@) =~= lines_of(bytes@));
        }
        return r;
    }
    let mut pieces = split_all(bytes, 10);
    let last_empty = pieces[pieces.len() - 1].len() == 0;
    let ghost p = split_at(bytes@, 10);
    proof {
        assert(pieces@.map_values(|v: Vec<u8>| v@)[p.len() - 1] == pieces@[p.len() - 1]@);
        assert(p.last() == pieces@[p.len() - 1]@);
    }
    if last_empty {
        let ghost pre = pieces@;
        pieces.pop();
        proof {
            assert(pieces@ =~= pre.drop_last());
            assert(pieces@.map_values(|v: Vec<u8>| v@) =~= p.drop_last());
        }
    }
    pieces
}

} // verus!
