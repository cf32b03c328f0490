//! The graph-description parser. Each line is classified as structural
//! (braces), an edge declaration, a styling directive, or a node
//! declaration, and the node and edge lines are taken apart field by field.
//! Every executable step is pinned to a spec-level mirror, so the whole
//! ingestion is a mathematical function of the input lines.

use vstd::prelude::*;
use crate::scan::{
    all_digits, bytes_eq, contains_byte, contains_seq, digits_val, find_from, first_match,
    has_byte, has_seq, lemma_first_match, match_at, parse_int, spec_parse_int, starts_with,
    strip_ws, strip_ws_spec, sub_copy,
};
use crate::model::{
    degree_of, degrees_ok, edges_in_range, edges_unique, lemma_degree_of_push, names_unique,
    Decimal, EdgeRec, ErrKind, ErrView, GraphError, NodeData, NodeDataView, ParsedGraph, Rgb,
};

verus! {

// The tokens of the description format.
pub open spec fn pat_arrow_tok() -> Seq<u8> {
    seq![45u8, 62u8]  // "->"
}

pub open spec fn pat_dash2_tok() -> Seq<u8> {
    seq![45u8, 45u8]  // "--"
}

pub open spec fn pat_arrow() -> Seq<u8> {
    seq![32u8, 45u8, 62u8, 32u8]  // " -> "
}

pub open spec fn pat_dash2() -> Seq<u8> {
    seq![32u8, 45u8, 45u8, 32u8]  // " -- "
}

pub open spec fn pat_edge_kw() -> Seq<u8> {
    seq![101u8, 100u8, 103u8, 101u8]  // "edge"
}

pub open spec fn pat_sp_lbrack() -> Seq<u8> {
    seq![32u8, 91u8]  // " ["
}

pub open spec fn pat_quote_comma() -> Seq<u8> {
    seq![34u8, 44u8, 32u8]  // "\", "
}

pub open spec fn pat_card_prefix() -> Seq<u8> {
    // "ncardinality " as it appears after the escaped newline's backslash
    seq![110u8, 99u8, 97u8, 114u8, 100u8, 105u8, 110u8, 97u8, 108u8, 105u8, 116u8, 121u8, 32u8]
}

pub open spec fn pat_radius_prefix() -> Seq<u8> {
    seq![110u8, 114u8, 97u8, 100u8, 105u8, 117u8, 115u8, 32u8]  // "nradius "
}

pub open spec fn pat_lfd_prefix() -> Seq<u8> {
    seq![110u8, 108u8, 102u8, 100u8, 32u8]  // "nlfd "
}

pub open spec fn pat_color_prefix() -> Seq<u8> {
    seq![99u8, 111u8, 108u8, 111u8, 114u8, 61u8, 34u8]  // "color=\""
}

/// A line holding an opening or closing brace frames the graph and is ignored.
pub open spec fn spec_is_structural(line: Seq<u8>) -> bool {
    contains_byte(line, 123) || contains_byte(line, 125)
}

/// Whether the line holds a connector token: a directed `->` or an
/// undirected `--`, spaced or not.
pub open spec fn spec_has_connector(line: Seq<u8>) -> bool {
    contains_seq(line, pat_arrow_tok()) || contains_seq(line, pat_dash2_tok())
}

/// A non-structural line with a directed (`->`) or undirected (`--`)
/// connector token declares an edge.
pub open spec fn spec_is_edge_line(line: Seq<u8>) -> bool {
    !spec_is_structural(line) && spec_has_connector(line)
}

/// A non-structural, non-edge line with the styling keyword is ignored.
pub open spec fn spec_is_styling(line: Seq<u8>) -> bool {
    contains_seq(line, pat_edge_kw())
}

/// Everything else declares a node: no brace, no connector token, and not
/// the styling keyword.
pub open spec fn spec_is_node_line(line: Seq<u8>) -> bool {
    !spec_is_structural(line) && !spec_has_connector(line) && !spec_is_styling(line)
}

/// The decimal number denoted by `s`: an optional minus sign, digits with at
/// most one point among them, at least one digit in all. `None` when the
/// shape is wrong or the digits exceed what `Decimal` can hold exactly.
pub open spec fn spec_parse_decimal(s: Seq<u8>) -> Option<Decimal> {
    let neg = s.len() > 0 && s[0] == 45;
    let t = if neg {
        s.drop_first()
    } else {
        s
    };
    match first_match(t, seq![46u8], 0) {
        None => {
            if t.len() == 0 || !all_digits(t) || digits_val(t) > i64::MAX {
                None
            } else {
                Some(
                    Decimal {
                        mantissa: if neg {
                            (-digits_val(t)) as i64
                        } else {
                            digits_val(t) as i64
                        },
                        frac_digits: 0,
                    },
                )
            }
        },
        Some(dot) => {
            let ip = t.subrange(0, dot);
            let fp = t.subrange(dot + 1, t.len() as int);
            let digits = ip + fp;
            if digits.len() == 0 || contains_byte(fp, 46) || !all_digits(digits) || digits_val(
                digits,
            ) > i64::MAX || fp.len() > u32::MAX {
                None
            } else {
                Some(
                    Decimal {
                        mantissa: if neg {
                            (-digits_val(digits)) as i64
                        } else {
                            digits_val(digits) as i64
                        },
                        frac_digits: fp.len() as u32,
                    },
                )
            }
        },
    }
}

/// The decimal number denoted by `s`, exactly as `spec_parse_decimal` gives it.
pub fn parse_decimal(s: &[u8]) -> (r: Option<Decimal>)
    ensures
        r == spec_parse_decimal(s@),
{
    let n = s.len();
    let (neg, t) = if n > 0 && s[0] == 45 {
        (true, vstd::slice::slice_subrange(s, 1, n))
    } else {
        (false, vstd::slice::slice_subrange(s, 0, n))
    };
    proof {
        if n > 0 && s@[0] == 45 {
            assert(s@.subrange(1, n as int) =~= s@.drop_first());
        } else {
            assert(s@.subrange(0, n as int) =~= s@);
        }
    }
    let dotpat: Vec<u8> = vec![46u8];
    proof {
        assert(dotpat@ =~= seq![46u8]);
    }
    match find_from(t, dotpat.as_slice(), 0) {
        None => {
            if t.len() == 0 {
                return None;
            }
            match crate::scan::parse_int_magnitude(t) {
                None => None,
                Some(v) => Some(
                    Decimal {
                        mantissa: if neg {
                            -(v as i64)
                        } else {
                            v as i64
                        },
                        frac_digits: 0,
                    },
                ),
            }
        },
        Some(dot) => {
            let tn = t.len();
            proof {
                lemma_first_match(t@, dotpat@, 0);
                assert(match_at(t@, seq![46u8], dot as int));
            }
            let fp = vstd::slice::slice_subrange(t, dot + 1, tn);
            if has_byte(fp, 46) {
                return None;
            }
            let mut digits = sub_copy(t, 0, dot);
            let mut i: usize = 0;
            let fplen = fp.len();
            while i < fplen
                invariant
                    i <= fplen,
                    fplen == fp@.len(),
                    fp@ == t@.subrange(dot as int + 1, t@.len() as int),
                    digits@ == t@.subrange(0, dot as int) + fp@.take(i as int),
                decreases fplen - i,
            {
                digits.push(fp[i]);
                proof {
                    assert(t@.subrange(0, dot as int) + fp@.take(i + 1) =~= (t@.subrange(
                        0,
                        dot as int,
                    ) + fp@.take(i as int)).push(fp@[i as int]));
                }
                i += 1;
            }
            proof {
                assert(fp@.take(fplen as int) =~= fp@);
            }
            if digits.len() == 0 {
                return None;
            }
            if fplen > u32::MAX as usize {
                return None;
            }
            match crate::scan::parse_int_magnitude(digits.as_slice()) {
                None => None,
                Some(v) => Some(
                    Decimal {
                        mantissa: if neg {
                            -(v as i64)
                        } else {
                            v as i64
                        },
                        frac_digits: (tn - dot - 1) as u32,
                    },
                ),
            }
        },
    }
}

/// Whether `b` is an ASCII hex digit.
pub open spec fn is_hex_digit(b: u8) -> bool {
    (48 <= b <= 57) || (97 <= b <= 102) || (65 <= b <= 70)
}

/// Value of an ASCII hex digit.
pub open spec fn hex_val(b: u8) -> int {
    if 48 <= b <= 57 {
        b - 48
    } else if 97 <= b <= 102 {
        b - 87
    } else {
        b - 55
    }
}

/// The colour denoted by `s`: a `#`, then six hex digits, of which the first
/// pair is the red channel and the last pair the blue channel; green stays
/// zero. Anything after the six digits is ignored.
pub open spec fn spec_parse_color(s: Seq<u8>) -> Option<Rgb> {
    if s.len() >= 7 && s[0] == 35 && is_hex_digit(s[1]) && is_hex_digit(s[2]) && is_hex_digit(
        s[3],
    ) && is_hex_digit(s[4]) && is_hex_digit(s[5]) && is_hex_digit(s[6]) {
        Some(
            Rgb {
                r: (hex_val(s[1]) * 16 + hex_val(s[2])) as u8,
                g: 0,
                b: (hex_val(s[5]) * 16 + hex_val(s[6])) as u8,
            },
        )
    } else {
        None
    }
}

/// The last four fields of a node line, taken from the three label parts
/// that follow the escaped newlines and carry fixed field-name prefixes.
pub open spec fn spec_node_fields(name: Seq<u8>, p1: Seq<u8>, p2: Seq<u8>, p3: Seq<u8>) -> Result<
    NodeDataView,
    ErrKind,
> {
    if !match_at(p1, pat_card_prefix(), 0) {
        Err(ErrKind::BadNodeLine)
    } else {
        match spec_parse_int(p1.skip(pat_card_prefix().len() as int)) {
            None => Err(ErrKind::BadNodeLine),
            Some(card) => {
                if !match_at(p2, pat_radius_prefix(), 0) {
                    Err(ErrKind::BadNodeLine)
                } else {
                    match spec_parse_decimal(p2.skip(pat_radius_prefix().len() as int)) {
                        None => Err(ErrKind::BadNodeLine),
                        Some(radius) => {
                            match first_match(p3, pat_quote_comma(), 0) {
                                None => Err(ErrKind::BadNodeLine),
                                Some(q) => {
                                    let lfd_part = p3.subrange(0, q);
                                    let color_part = p3.skip(q + pat_quote_comma().len() as int);
                                    if !match_at(lfd_part, pat_lfd_prefix(), 0) {
                                        Err(ErrKind::BadNodeLine)
                                    } else {
                                        match spec_parse_decimal(
                                            lfd_part.skip(pat_lfd_prefix().len() as int),
                                        ) {
                                            None => Err(ErrKind::BadNodeLine),
                                            Some(lfd) => {
                                                if !match_at(color_part, pat_color_prefix(), 0) {
                                                    Err(ErrKind::BadColor)
                                                } else {
                                                    match spec_parse_color(
                                                        color_part.skip(
                                                            pat_color_prefix().len() as int,
                                                        ),
                                                    ) {
                                                        None => Err(ErrKind::BadColor),
                                                        Some(color) => Ok(
                                                            NodeDataView {
                                                                name,
                                                                cardinality: card,
                                                                radius,
                                                                lfd,
                                                                color,
                                                                degree: 0,
                                                            },
                                                        ),
                                                    }
                                                }
                                            },
                                        }
                                    }
                                },
                            }
                        },
                    }
                }
            },
        }
    }
}

/// The node a node line declares: the name before the bracket with its
/// whitespace stripped, then the bracketed label payload split on the
/// escaped-newline backslashes into exactly four parts carrying the
/// cardinality, the radius, the local fractal dimension, and the colour.
pub open spec fn spec_parse_node(line: Seq<u8>) -> Result<NodeDataView, ErrKind> {
    match first_match(line, seq![91u8], 0) {
        None => Err(ErrKind::BadNodeLine),
        Some(lb) => {
            let name = strip_ws_spec(line.subrange(0, lb));
            let rest = line.skip(lb + 1);
            match first_match(rest, seq![92u8], 0) {
                None => Err(ErrKind::BadNodeLine),
                Some(i1) => {
                    match first_match(rest, seq![92u8], i1 + 1) {
                        None => Err(ErrKind::BadNodeLine),
                        Some(i2) => {
                            match first_match(rest, seq![92u8], i2 + 1) {
                                None => Err(ErrKind::BadNodeLine),
                                Some(i3) => {
                                    if first_match(rest, seq![92u8], i3 + 1) is Some {
                                        Err(ErrKind::BadNodeLine)
                                    } else {
                                        spec_node_fields(
                                            name,
                                            rest.subrange(i1 + 1, i2),
                                            rest.subrange(i2 + 1, i3),
                                            rest.skip(i3 + 1),
                                        )
                                    }
                                },
                            }
                        },
                    }
                },
            }
        },
    }
}

/// The endpoint names an edge line declares. The split is on the spaced
/// connector, ` -> ` or ` -- `, as the format writes edges; the directed
/// one is looked for first; the source name has its whitespace stripped,
/// and for an undirected edge a trailing bracketed attribute list is
/// discarded from the target. `None` — a malformed edge line — when the
/// line has a connector token but no spaced connector, or when an endpoint
/// comes out empty.
pub open spec fn spec_parse_edge(line: Seq<u8>) -> Option<(Seq<u8>, Seq<u8>)> {
    match first_match(line, pat_arrow(), 0) {
        Some(i) => {
            let a = strip_ws_spec(line.subrange(0, i));
            let b = line.skip(i + pat_arrow().len() as int);
            if a.len() == 0 || b.len() == 0 {
                None
            } else {
                Some((a, b))
            }
        },
        None => {
            match first_match(line, pat_dash2(), 0) {
                None => None,
                Some(i) => {
                    let a = strip_ws_spec(line.subrange(0, i));
                    let rest = line.skip(i + pat_dash2().len() as int);
                    let b = match first_match(rest, pat_sp_lbrack(), 0) {
                        Some(j) => rest.subrange(0, j),
                        None => rest,
                    };
                    if a.len() == 0 || b.len() == 0 {
                        None
                    } else {
                        Some((a, b))
                    }
                },
            }
        },
    }
}

/// Value of one hex digit byte, or `None`.
fn hex_digit_val(b: u8) -> (r: Option<u8>)
    ensures
        match r {
            Some(v) => is_hex_digit(b) && v as int == hex_val(b),
            None => !is_hex_digit(b),
        },
{
    if 48 <= b && b <= 57 {
        Some(b - 48)
    } else if 97 <= b && b <= 102 {
        Some(b - 87)
    } else if 65 <= b && b <= 70 {
        Some(b - 55)
    } else {
        None
    }
}

/// The colour denoted by `s`, exactly as `spec_parse_color` gives it.
pub fn parse_color(s: &[u8]) -> (r: Option<Rgb>)
    ensures
        r == spec_parse_color(s@),
{
    if s.len() < 7 || s[0] != 35 {
        return None;
    }
    let d1 = hex_digit_val(s[1]);
    let d2 = hex_digit_val(s[2]);
    let d3 = hex_digit_val(s[3]);
    let d4 = hex_digit_val(s[4]);
    let d5 = hex_digit_val(s[5]);
    let d6 = hex_digit_val(s[6]);
    match (d1, d2, d3, d4, d5, d6) {
        (Some(h1), Some(h2), Some(_), Some(_), Some(h5), Some(h6)) => Some(
            Rgb { r: h1 * 16 + h2, g: 0, b: h5 * 16 + h6 },
        ),
        _ => None,
    }
}

/// Slice `s` without a leading `p`, or `None` when `s` does not start with it.
fn strip_prefix<'a>(s: &'a [u8], p: &[u8]) -> (r: Option<&'a [u8]>)
    ensures
        match r {
            Some(t) => match_at(s@, p@, 0) && t@ == s@.skip(p@.len() as int),
            None => !match_at(s@, p@, 0),
        },
{
    if starts_with(s, p) {
        let t = vstd::slice::slice_subrange(s, p.len(), s.len());
        proof {
            assert(s@.skip(p@.len() as int) =~= s@.subrange(p@.len() as int, s@.len() as int));
        }
        Some(t)
    } else {
        None
    }
}

/// Whether the line holds a directed or undirected connector token,
/// exactly `spec_has_connector`.
pub fn has_connector(line: &[u8]) -> (r: bool)
    ensures
        r == spec_has_connector(line@),
{
    let arrow_tok: Vec<u8> = vec![45u8, 62u8];
    let dash2_tok: Vec<u8> = vec![45u8, 45u8];
    proof {
        assert(arrow_tok@ =~= pat_arrow_tok());
        assert(dash2_tok@ =~= pat_dash2_tok());
    }
    has_seq(line, arrow_tok.as_slice()) || has_seq(line, dash2_tok.as_slice())
}

/// Whether the line declares an edge: no brace, and a directed (`->`) or
/// undirected (`--`) connector token.
pub fn is_edge(line: &[u8]) -> (r: bool)
    ensures
        r == spec_is_edge_line(line@),
{
    !has_byte(line, 123) && !has_byte(line, 125) && has_connector(line)
}

/// Whether the line declares a node: no brace, no connector token, and not
/// the styling keyword.
pub fn is_node(line: &[u8]) -> (r: bool)
    ensures
        r == spec_is_node_line(line@),
{
    let edge_kw: Vec<u8> = vec![101u8, 100u8, 103u8, 101u8];
    proof {
        assert(edge_kw@ =~= pat_edge_kw());
    }
    !has_byte(line, 123) && !has_byte(line, 125) && !has_connector(line) && !has_seq(
        line,
        edge_kw.as_slice(),
    )
}

/// The last four fields of a node line, exactly as `spec_node_fields` gives
/// them.
fn parse_fields(name: Vec<u8>, p1: &[u8], p2: &[u8], p3: &[u8]) -> (r: Result<NodeData, ErrKind>)
    ensures
        match r {
            Ok(nd) => spec_node_fields(name@, p1@, p2@, p3@) == Ok::<NodeDataView, ErrKind>(
                nd.deep_view(),
            ),
            Err(k) => spec_node_fields(name@, p1@, p2@, p3@) == Err::<NodeDataView, ErrKind>(k),
        },
{
    let card_prefix: Vec<u8> = vec![
        110u8, 99u8, 97u8, 114u8, 100u8, 105u8, 110u8, 97u8, 108u8, 105u8, 116u8, 121u8, 32u8,
    ];
    let radius_prefix: Vec<u8> = vec![110u8, 114u8, 97u8, 100u8, 105u8, 117u8, 115u8, 32u8];
    let lfd_prefix: Vec<u8> = vec![110u8, 108u8, 102u8, 100u8, 32u8];
    let color_prefix: Vec<u8> = vec![99u8, 111u8, 108u8, 111u8, 114u8, 61u8, 34u8];
    let quote_comma: Vec<u8> = vec![34u8, 44u8, 32u8];
    proof {
        assert(card_prefix@ =~= pat_card_prefix());
        assert(radius_prefix@ =~= pat_radius_prefix());
        assert(lfd_prefix@ =~= pat_lfd_prefix());
        assert(color_prefix@ =~= pat_color_prefix());
        assert(quote_comma@ =~= pat_quote_comma());
    }
    let t1 = match strip_prefix(p1, card_prefix.as_slice()) {
        None => {
            return Err(ErrKind::BadNodeLine);
        },
        Some(t) => t,
    };
    let cardinality = match parse_int(t1) {
        None => {
            return Err(ErrKind::BadNodeLine);
        },
        Some(v) => v,
    };
    let t2 = match strip_prefix(p2, radius_prefix.as_slice()) {
        None => {
            return Err(ErrKind::BadNodeLine);
        },
        Some(t) => t,
    };
    let radius = match parse_decimal(t2) {
        None => {
            return Err(ErrKind::BadNodeLine);
        },
        Some(v) => v,
    };
    let q = match find_from(p3, quote_comma.as_slice(), 0) {
        None => {
            return Err(ErrKind::BadNodeLine);
        },
        Some(q) => q,
    };
    proof {
        lemma_first_match(p3@, quote_comma@, 0);
        assert(match_at(p3@, quote_comma@, q as int));
        assert(q + 3 <= p3@.len());
    }
    let p3n = p3.len();
    let lfd_part = vstd::slice::slice_subrange(p3, 0, q);
    let color_part = vstd::slice::slice_subrange(p3, q + 3, p3n);
    proof {
        assert(p3@.skip(q + pat_quote_comma().len() as int) =~= p3@.subrange(
            q + 3,
            p3@.len() as int,
        ));
    }
    let t3 = match strip_prefix(lfd_part, lfd_prefix.as_slice()) {
        None => {
            return Err(ErrKind::BadNodeLine);
        },
        Some(t) => t,
    };
    let lfd = match parse_decimal(t3) {
        None => {
            return Err(ErrKind::BadNodeLine);
        },
        Some(v) => v,
    };
    let t4 = match strip_prefix(color_part, color_prefix.as_slice()) {
        None => {
            return Err(ErrKind::BadColor);
        },
        Some(t) => t,
    };
    let color = match parse_color(t4) {
        None => {
            return Err(ErrKind::BadColor);
        },
        Some(v) => v,
    };
    Ok(NodeData { name, cardinality, radius, lfd, color, degree: 0 })
}

/// The node a node line declares, exactly as `spec_parse_node` gives it.
pub fn parse_node_line(line: &[u8]) -> (r: Result<NodeData, ErrKind>)
    ensures
        match r {
            Ok(nd) => spec_parse_node(line@) == Ok::<NodeDataView, ErrKind>(nd.deep_view()),
            Err(k) => spec_parse_node(line@) == Err::<NodeDataView, ErrKind>(k),
        },
{
    let n = line.len();
    let lb_pat: Vec<u8> = vec![91u8];
    let bs_pat: Vec<u8> = vec![92u8];
    proof {
        assert(lb_pat@ =~= seq![91u8]);
        assert(bs_pat@ =~= seq![92u8]);
    }
    let lb = match find_from(line, lb_pat.as_slice(), 0) {
        None => {
            return Err(ErrKind::BadNodeLine);
        },
        Some(i) => i,
    };
    proof {
        lemma_first_match(line@, lb_pat@, 0);
    }
    let name = strip_ws(vstd::slice::slice_subrange(line, 0, lb));
    let rest = vstd::slice::slice_subrange(line, lb + 1, n);
    proof {
        assert(line@.skip(lb + 1) =~= line@.subrange(lb + 1, n as int));
    }
    let i1 = match find_from(rest, bs_pat.as_slice(), 0) {
        None => {
            return Err(ErrKind::BadNodeLine);
        },
        Some(i) => i,
    };
    proof {
        lemma_first_match(rest@, bs_pat@, 0);
    }
    let i2 = match find_from(rest, bs_pat.as_slice(), i1 + 1) {
        None => {
            return Err(ErrKind::BadNodeLine);
        },
        Some(i) => i,
    };
    proof {
        lemma_first_match(rest@, bs_pat@, i1 + 1);
    }
    let i3 = match find_from(rest, bs_pat.as_slice(), i2 + 1) {
        None => {
            return Err(ErrKind::BadNodeLine);
        },
        Some(i) => i,
    };
    proof {
        lemma_first_match(rest@, bs_pat@, i2 + 1);
    }
    match find_from(rest, bs_pat.as_slice(), i3 + 1) {
        Some(_) => {
            return Err(ErrKind::BadNodeLine);
        },
        None => {},
    }
    let p1 = vstd::slice::slice_subrange(rest, i1 + 1, i2);
    let p2 = vstd::slice::slice_subrange(rest, i2 + 1, i3);
    let p3 = vstd::slice::slice_subrange(rest, i3 + 1, rest.len());
    proof {
        assert(rest@.skip(i3 + 1) =~= rest@.subrange(i3 + 1, rest@.len() as int));
    }
    parse_fields(name, p1, p2, p3)
}

/// The endpoint names an edge line declares, exactly as `spec_parse_edge`
/// gives them.
pub fn parse_edge_line(line: &[u8]) -> (r: Option<(Vec<u8>, Vec<u8>)>)
    ensures
        match r {
            Some(ab) => spec_parse_edge(line@) == Some((ab.0@, ab.1@)),
            None => spec_parse_edge(line@) is None,
        },
{
    let n = line.len();
    let arrow: Vec<u8> = vec![32u8, 45u8, 62u8, 32u8];
    let dash2: Vec<u8> = vec![32u8, 45u8, 45u8, 32u8];
    let sp_lbrack: Vec<u8> = vec![32u8, 91u8];
    proof {
        assert(arrow@ =~= pat_arrow());
        assert(dash2@ =~= pat_dash2());
        assert(sp_lbrack@ =~= pat_sp_lbrack());
    }
    match find_from(line, arrow.as_slice(), 0) {
        Some(i) => {
            proof {
                lemma_first_match(line@, arrow@, 0);
            }
            let a = strip_ws(vstd::slice::slice_subrange(line, 0, i));
            let b = sub_copy(line, i + 4, n);
            proof {
                assert(line@.skip(i + pat_arrow().len() as int) =~= line@.subrange(
                    i + 4,
                    n as int,
                ));
            }
            if a.len() == 0 || b.len() == 0 {
                None
            } else {
                Some((a, b))
            }
        },
        None => {
            match find_from(line, dash2.as_slice(), 0) {
                None => None,
                Some(i) => {
                    proof {
                        lemma_first_match(line@, dash2@, 0);
                    }
                    let a = strip_ws(vstd::slice::slice_subrange(line, 0, i));
                    let rest = vstd::slice::slice_subrange(line, i + 4, n);
                    proof {
                        assert(line@.skip(i + pat_dash2().len() as int) =~= line@.subrange(
                            i + 4,
                            n as int,
                        ));
                    }
                    let b = match find_from(rest, sp_lbrack.as_slice(), 0) {
                        Some(j) => {
                            proof {
                                lemma_first_match(rest@, sp_lbrack@, 0);
                            }
                            sub_copy(rest, 0, j)
                        },
                        None => sub_copy(rest, 0, rest.len()),
                    };
                    proof {
                        assert(rest@.subrange(0, rest@.len() as int) =~= rest@);
                    }
                    if a.len() == 0 || b.len() == 0 {
                        None
                    } else {
                        Some((a, b))
                    }
                },
            }
        },
    }
}

/// Spec-level image of the parser's accumulating state.
pub struct ParsedView {
    pub nodes: Seq<NodeDataView>,
    pub edges: Seq<EdgeRec>,
}

/// The state before any line has been read.
pub open spec fn empty_parsed() -> ParsedView {
    ParsedView { nodes: Seq::empty(), edges: Seq::empty() }
}

/// Index of the first node at or after `from` whose name is `name`.
pub open spec fn spec_find_name(nodes: Seq<NodeDataView>, name: Seq<u8>, from: int) -> Option<int>
    decreases nodes.len() - from
{
    if from < 0 || from >= nodes.len() {
        None
    } else if nodes[from].name == name {
        Some(from)
    } else {
        spec_find_name(nodes, name, from + 1)
    }
}

/// What `spec_find_name` finds is a node with that name, and `None` means
/// no node at or after `from` carries it.
pub proof fn lemma_spec_find_name(nodes: Seq<NodeDataView>, name: Seq<u8>, from: int)
    requires
        0 <= from,
    ensures
        match spec_find_name(nodes, name, from) {
            Some(i) => from <= i < nodes.len() && nodes[i].name == name,
            None => forall|j: int| from <= j < nodes.len() ==> (#[trigger] nodes[j]).name != name,
        },
    decreases nodes.len() - from
{
    if from < nodes.len() && nodes[from].name != name {
        lemma_spec_find_name(nodes, name, from + 1);
    }
}

/// `nodes` with node `i`'s degree one higher.
pub open spec fn bump_degree(nodes: Seq<NodeDataView>, i: int) -> Seq<NodeDataView> {
    nodes.update(
        i,
        NodeDataView { degree: (nodes[i].degree + 1) as u32, ..nodes[i] },
    )
}

/// What one line does to the parser's state: structural and styling lines
/// are ignored; an edge line is parsed, resolved against the declared
/// nodes, ignored if its exact ordered endpoint pair was already present,
/// and otherwise recorded while both endpoints' degrees rise; a node line
/// is parsed and recorded, a redeclared name keeping its accumulated
/// degree. The first failure aborts the whole load.
pub open spec fn spec_ingest_line(line: Seq<u8>, k: int, acc: ParsedView) -> Result<
    ParsedView,
    ErrView,
> {
    if spec_is_structural(line) {
        Ok(acc)
    } else if spec_has_connector(line) {
        match spec_parse_edge(line) {
            None => Err(ErrView { kind: ErrKind::BadEdgeLine, line_no: k, data: line }),
            Some(ab) => match spec_find_name(acc.nodes, ab.0, 0) {
                None => Err(ErrView { kind: ErrKind::UnknownNode, line_no: k, data: ab.0 }),
                Some(ia) => match spec_find_name(acc.nodes, ab.1, 0) {
                    None => Err(ErrView { kind: ErrKind::UnknownNode, line_no: k, data: ab.1 }),
                    Some(ib) => {
                        let e = EdgeRec { a: ia as usize, b: ib as usize };
                        if acc.edges.contains(e) {
                            Ok(acc)
                        } else {
                            Ok(
                                ParsedView {
                                    nodes: bump_degree(bump_degree(acc.nodes, ia), ib),
                                    edges: acc.edges.push(e),
                                },
                            )
                        }
                    },
                },
            },
        }
    } else if spec_is_styling(line) {
        Ok(acc)
    } else {
        match spec_parse_node(line) {
            Err(kind) => Err(ErrView { kind, line_no: k, data: line }),
            Ok(nd) => match spec_find_name(acc.nodes, nd.name, 0) {
                None => Ok(ParsedView { nodes: acc.nodes.push(nd), ..acc }),
                Some(i) => Ok(
                    ParsedView {
                        nodes: acc.nodes.update(
                            i,
                            NodeDataView { degree: acc.nodes[i].degree, ..nd },
                        ),
                        ..acc
                    },
                ),
            },
        }
    }
}

/// The parser's state after the lines from `k` on, starting from `acc`.
pub open spec fn spec_ingest_from(lines: Seq<Seq<u8>>, k: int, acc: ParsedView) -> Result<
    ParsedView,
    ErrView,
>
    decreases lines.len() - k
{
    if k < 0 || k >= lines.len() {
        Ok(acc)
    } else {
        match spec_ingest_line(lines[k], k, acc) {
            Ok(acc2) => spec_ingest_from(lines, k + 1, acc2),
            Err(e) => Err(e),
        }
    }
}

/// The graph a whole description denotes, or its first error.
pub open spec fn spec_ingest(lines: Seq<Seq<u8>>) -> Result<ParsedView, ErrView> {
    spec_ingest_from(lines, 0, empty_parsed())
}

/// First node whose name is `name`, exactly as `spec_find_name` gives it.
pub fn find_name(nodes: &Vec<NodeData>, name: &[u8]) -> (r: Option<usize>)
    ensures
        match r {
            Some(i) => spec_find_name(nodes.deep_view(), name@, 0) == Some(i as int) && i
                < nodes@.len(),
            None => spec_find_name(nodes.deep_view(), name@, 0) is None,
        },
{
    let n = nodes.len();
    let ghost dv = nodes.deep_view();
    proof {
        assert(dv.len() == n);
    }
    let mut i: usize = 0;
    while i < n
        invariant
            i <= n,
            n == nodes@.len(),
            dv == nodes.deep_view(),
            dv.len() == n,
            spec_find_name(dv, name@, 0) == spec_find_name(dv, name@, i as int),
        decreases n - i,
    {
        proof {
            assert(dv[i as int].name == nodes@[i as int].name@);
        }
        if bytes_eq(nodes[i].name.as_slice(), name) {
            return Some(i);
        }
        i += 1;
    }
    None
}

/// Whether the exact ordered endpoint pair `e` is already recorded.
fn edge_exists(edges: &Vec<EdgeRec>, e: EdgeRec) -> (r: bool)
    ensures
        r == edges@.contains(e),
{
    let n = edges.len();
    let mut i: usize = 0;
    while i < n
        invariant
            i <= n,
            n == edges@.len(),
            forall|k: int| 0 <= k < i ==> edges@[k] != e,
        decreases n - i,
    {
        if edges[i].a == e.a && edges[i].b == e.b {
            assert(edges@[i as int] == e);
            return true;
        }
        i += 1;
    }
    false
}

/// Read a whole description: every line classified and parsed, nodes and
/// edges recorded in the order their lines appear, degrees counted as the
/// edges arrive. The result is exactly `spec_ingest` of the lines; on
/// success it is well formed (unique names, valid distinct edges, and each
/// degree equal to the node's count of edge endpoints), and an error is the
/// first line's failure, with that line's number and content.
pub fn parse_lines(lines: &Vec<Vec<u8>>) -> (r: Result<ParsedGraph, GraphError>)
    requires
        lines@.len() <= 0x7fff_ffff,
    ensures
        match r {
            Ok(g) => {
                &&& g.wf()
                &&& spec_ingest(lines.deep_view()) == Ok::<ParsedView, ErrView>(
                    ParsedView { nodes: g.nodes.deep_view(), edges: g.edges@ },
                )
                &&& g.edges@.len() <= lines@.len()
            },
            Err(e) => spec_ingest(lines.deep_view()) == Err::<ParsedView, ErrView>(e.deep_view()),
        },
{
    let ghost ldv = lines.deep_view();
    let n = lines.len();
    proof {
        assert(ldv.len() == n);
    }
    let mut nodes: Vec<NodeData> = Vec::new();
    let mut edges: Vec<EdgeRec> = Vec::new();
    let arrow_tok: Vec<u8> = vec![45u8, 62u8];
    let dash2_tok: Vec<u8> = vec![45u8, 45u8];
    let edge_kw: Vec<u8> = vec![101u8, 100u8, 103u8, 101u8];
    proof {
        assert(arrow_tok@ =~= pat_arrow_tok());
        assert(dash2_tok@ =~= pat_dash2_tok());
        assert(edge_kw@ =~= pat_edge_kw());
        assert(nodes.deep_view() =~= empty_parsed().nodes);
        assert(edges@ =~= empty_parsed().edges);
    }
    let mut k: usize = 0;
    while k < n
        invariant
            k <= n,
            n == ldv.len() == lines@.len() <= 0x7fff_ffff,
            ldv == lines.deep_view(),
            arrow_tok@ == pat_arrow_tok(),
            dash2_tok@ == pat_dash2_tok(),
            edge_kw@ == pat_edge_kw(),
            spec_ingest_from(ldv, k as int, ParsedView { nodes: nodes.deep_view(), edges: edges@ })
                == spec_ingest(ldv),
            names_unique(nodes.deep_view()),
            edges_in_range(nodes@.len() as int, edges@),
            edges_unique(edges@),
            degrees_ok(nodes.deep_view(), edges@),
            edges@.len() <= k,
        decreases n - k,
    {
        let ghost acc = ParsedView { nodes: nodes.deep_view(), edges: edges@ };
        let line = &lines[k];
        proof {
            assert(ldv[k as int] =~= line@);
        }
        let structural = has_byte(line.as_slice(), 123) || has_byte(line.as_slice(), 125);
        if structural {
            // graph header or footer: ignored
        } else if has_seq(line.as_slice(), arrow_tok.as_slice()) || has_seq(
            line.as_slice(),
            dash2_tok.as_slice(),
        ) {
            let (na, nb) = match parse_edge_line(line.as_slice()) {
                None => {
                    return Err(GraphError::MalformedEdgeLine { line_no: k, line: line.clone() });
                },
                Some(ab) => ab,
            };
            let ia = match find_name(&nodes, na.as_slice()) {
                None => {
                    return Err(GraphError::UnknownNodeReference { line_no: k, name: na });
                },
                Some(i) => i,
            };
            let ib = match find_name(&nodes, nb.as_slice()) {
                None => {
                    return Err(GraphError::UnknownNodeReference { line_no: k, name: nb });
                },
                Some(i) => i,
            };
            let e = EdgeRec { a: ia, b: ib };
            if !edge_exists(&edges, e) {
                proof {
                    crate::model::lemma_degree_of_le(edges@, ia as int);
                    crate::model::lemma_degree_of_le(edges@, ib as int);
                }
                let da = nodes[ia].degree;
                nodes[ia].degree = da + 1;
                proof {
                    assert(nodes.deep_view() =~= bump_degree(acc.nodes, ia as int));
                }
                let db = nodes[ib].degree;
                nodes[ib].degree = db + 1;
                proof {
                    assert(nodes.deep_view() =~= bump_degree(
                        bump_degree(acc.nodes, ia as int),
                        ib as int,
                    ));
                }
                edges.push(e);
                proof {
                    let dv = nodes.deep_view();
                    assert forall|i: int| 0 <= i < dv.len() implies (#[trigger] dv[i]).degree
                        as int == degree_of(edges@, i) by {
                        lemma_degree_of_push(acc.edges, e, i);
                        crate::model::lemma_degree_of_le(acc.edges, i);
                    }
                    assert forall|i: int, j: int| 0 <= i < j < dv.len() implies dv[i].name
                        != dv[j].name by {
                        assert(dv[i].name == acc.nodes[i].name);
                        assert(dv[j].name == acc.nodes[j].name);
                    }
                }
            }
        } else if has_seq(line.as_slice(), edge_kw.as_slice()) {
            // styling directive: ignored
        } else {
            let nd = match parse_node_line(line.as_slice()) {
                Err(kind) => {
                    match kind {
                        ErrKind::BadColor => {
                            return Err(
                                GraphError::InvalidColorFormat { line_no: k, line: line.clone() },
                            );
                        },
                        ErrKind::BadEdgeLine => {
                            return Err(
                                GraphError::MalformedEdgeLine { line_no: k, line: line.clone() },
                            );
                        },
                        ErrKind::UnknownNode => {
                            return Err(
                                GraphError::UnknownNodeReference { line_no: k, name: line.clone() },
                            );
                        },
                        ErrKind::BadNodeLine => {
                            return Err(
                                GraphError::MalformedNodeLine { line_no: k, line: line.clone() },
                            );
                        },
                    }
                },
                Ok(nd) => nd,
            };
            match find_name(&nodes, nd.name.as_slice()) {
                None => {
                    proof {
                        lemma_spec_find_name(acc.nodes, nd.deep_view().name, 0);
                    }
                    nodes.push(nd);
                    proof {
                        let dv = nodes.deep_view();
                        assert(dv =~= acc.nodes.push(dv.last()));
                        assert forall|a: int, b: int| 0 <= a < b < dv.len() implies dv[a].name
                            != dv[b].name by {
                            assert(dv[a].name == acc.nodes[a].name);
                            if b < dv.len() - 1 {
                                assert(dv[b].name == acc.nodes[b].name);
                            }
                        }
                        assert forall|i: int| 0 <= i < dv.len() implies (#[trigger] dv[i]).degree
                            as int == degree_of(edges@, i) by {
                            if i == dv.len() - 1 {
                                crate::model::lemma_degree_of_absent(edges@, i);
                            }
                        }
                    }
                },
                Some(i) => {
                    proof {
                        lemma_spec_find_name(acc.nodes, nd.deep_view().name, 0);
                    }
                    let d = nodes[i].degree;
                    let mut nd2 = nd;
                    nd2.degree = d;
                    nodes[i] = nd2;
                    proof {
                        let dv = nodes.deep_view();
                        assert(dv =~= acc.nodes.update(i as int, dv[i as int]));
                        assert forall|a: int, b: int| 0 <= a < b < dv.len() implies dv[a].name
                            != dv[b].name by {
                            assert(dv[a].name == acc.nodes[a].name);
                            assert(dv[b].name == acc.nodes[b].name);
                        }
                    }
                },
            }
        }
        k += 1;
    }
    proof {
        assert(spec_ingest_from(ldv, n as int, ParsedView { nodes: nodes.deep_view(), edges: edges@ })
            == Ok::<ParsedView, ErrView>(ParsedView { nodes: nodes.deep_view(), edges: edges@ }));
    }
    Ok(ParsedGraph { nodes, edges })
}

} // verus!
