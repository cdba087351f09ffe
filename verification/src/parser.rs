//! Hand-written parsers for the clause grammar: join clauses, column
//! pairs, and INSERT statements. Each parser's contract is equality with
//! a character-level grammar function, and each answers the remaining
//! input alongside the parsed value.

use vstd::prelude::*;
use crate::ast::{
    ColumnValuePair, CvpM, InsertStatement, JoinClause, JoinM, JoinType, Statement, TableRefM,
};
use crate::fts::lower_char;
use crate::value::{DataValue, Val};

verus! {

/// Identifier characters: ASCII letters, digits, and the underscore.
pub open spec fn is_ident_char(c: char) -> bool {
    let u = c as u32;
    (48 <= u && u <= 57) || (65 <= u && u <= 90) || (97 <= u && u <= 122) || c == '_'
}

/// Plain alphanumeric characters (table names).
pub open spec fn is_alnum_char(c: char) -> bool {
    let u = c as u32;
    (48 <= u && u <= 57) || (65 <= u && u <= 90) || (97 <= u && u <= 122)
}

/// Whitespace.
pub open spec fn is_space_char(c: char) -> bool {
    c == ' ' || c == '\t' || c == '\n' || c == '\r'
}

/// Decimal digits.
pub open spec fn is_digit_char(c: char) -> bool {
    let u = c as u32;
    48 <= u && u <= 57
}


/// The identifier predicate as a function value.
pub open spec fn ident_p() -> spec_fn(char) -> bool {
    |c: char| is_ident_char(c)
}

/// The alphanumeric predicate as a function value.
pub open spec fn alnum_p() -> spec_fn(char) -> bool {
    |c: char| is_alnum_char(c)
}

/// The whitespace predicate as a function value.
pub open spec fn space_p() -> spec_fn(char) -> bool {
    |c: char| is_space_char(c)
}

/// The digit predicate as a function value.
pub open spec fn digit_p() -> spec_fn(char) -> bool {
    |c: char| is_digit_char(c)
}

/// Everything but the closing quote, as a function value.
pub open spec fn text_p() -> spec_fn(char) -> bool {
    |c: char| c != '\''
}

/// Length of the run of characters satisfying `p` starting at `i`.
pub open spec fn run_len(s: Seq<char>, i: int, p: spec_fn(char) -> bool) -> int
    decreases s.len() - i,
{
    if 0 <= i < s.len() && p(s[i]) {
        1 + run_len(s, i + 1, p)
    } else {
        0
    }
}

/// A run never leaves the string.
pub proof fn lemma_run_len(s: Seq<char>, i: int, p: spec_fn(char) -> bool)
    requires
        0 <= i <= s.len(),
    ensures
        0 <= run_len(s, i, p),
        i + run_len(s, i, p) <= s.len(),
    decreases s.len() - i,
{
    if i < s.len() && p(s[i]) {
        lemma_run_len(s, i + 1, p);
    }
}

/// Whether the lowered text at `i` is the (lowercase) word `t`.
pub open spec fn tag_nocase_at(s: Seq<char>, i: int, t: Seq<char>) -> bool {
    &&& 0 <= i
    &&& i + t.len() <= s.len()
    &&& forall|k: int| 0 <= k < t.len() ==> lower_char(#[trigger] s[i + k]) == t[k]
}

/// Whether the text at `i` is exactly `t`.
pub open spec fn tag_at(s: Seq<char>, i: int, t: Seq<char>) -> bool {
    &&& 0 <= i
    &&& i + t.len() <= s.len()
    &&& forall|k: int| 0 <= k < t.len() ==> #[trigger] s[i + k] == t[k]
}

/// The grammar of one side of a join condition: `ident` or `ident.ident`;
/// answers the position after the pair and its model.
pub open spec fn parse_cvp_at(s: Seq<char>, i: int) -> Option<(int, CvpM)> {
    let l1 = run_len(s, i, ident_p());
    if l1 == 0 {
        None
    } else if i + l1 < s.len() && s[i + l1] == '.' {
        let l2 = run_len(s, i + l1 + 1, ident_p());
        if l2 == 0 {
            None
        } else {
            Some(
                (
                    i + l1 + 1 + l2,
                    CvpM {
                        table_name: s.subrange(i, i + l1),
                        column_name: s.subrange(i + l1 + 1, i + l1 + 1 + l2),
                    },
                ),
            )
        }
    } else {
        Some((i + l1, CvpM { table_name: Seq::empty(), column_name: s.subrange(i, i + l1) }))
    }
}

fn scan_run(s: &str, i: usize, kind: u8) -> (l: usize)
    requires
        i <= s@.len(),
        kind < 4,
    ensures
        l as int == run_len(
            s@,
            i as int,
            if kind == 0 {
                ident_p()
            } else if kind == 1 {
                alnum_p()
            } else if kind == 2 {
                space_p()
            } else {
                digit_p()
            },
        ),
        i + l <= s@.len(),
{
    let ghost p: spec_fn(char) -> bool = if kind == 0 {
        ident_p()
    } else if kind == 1 {
        alnum_p()
    } else if kind == 2 {
        space_p()
    } else {
        digit_p()
    };
    let n = s.unicode_len();
    let mut j: usize = i;
    while j < n
        invariant
            n == s@.len(),
            i <= j <= n,
            run_len(s@, i as int, p) == (j - i) + run_len(s@, j as int, p),
            p == (if kind == 0 {
                ident_p()
            } else if kind == 1 {
                alnum_p()
            } else if kind == 2 {
                space_p()
            } else {
                digit_p()
            }),
        decreases n - j,
    {
        let c = s.get_char(j);
        let u = c as u32;
        let ok: bool = if kind == 0 {
            (48 <= u && u <= 57) || (65 <= u && u <= 90) || (97 <= u && u <= 122) || c == '_'
        } else if kind == 1 {
            (48 <= u && u <= 57) || (65 <= u && u <= 90) || (97 <= u && u <= 122)
        } else if kind == 2 {
            c == ' ' || c == '\t' || c == '\n' || c == '\r'
        } else {
            48 <= u && u <= 57
        };
        proof {
            assert(ok == p(s@[j as int]));
        }
        if !ok {
            proof {
                assert(run_len(s@, j as int, p) == 0);
            }
            return j - i;
        }
        j = j + 1;
    }
    proof {
        assert(run_len(s@, n as int, p) == 0);
    }
    j - i
}

/// Whether the lowered text at `i` matches the lowercase ASCII word `t`.
fn tag_nocase(s: &str, i: usize, t: &str) -> (r: bool)
    requires
        i <= s@.len(),
    ensures
        r == tag_nocase_at(s@, i as int, t@),
{
    let tl = t.unicode_len();
    let n = s.unicode_len();
    if n - i < tl {
        return false;
    }
    let mut k: usize = 0;
    while k < tl
        invariant
            tl == t@.len(),
            n == s@.len(),
            i + tl <= n,
            k <= tl,
            forall|q: int| 0 <= q < k ==> lower_char(#[trigger] s@[i + q]) == t@[q],
        decreases tl - k,
    {
        let a = crate::fts::lowercase_char(s.get_char(i + k));
        let b = t.get_char(k);
        let same = (a as u32) == (b as u32);
        proof {
            if same {
                vstd::utf8::char_u32_cast(a, a as u32);
                vstd::utf8::char_u32_cast(b, b as u32);
            }
        }
        if !same {
            return false;
        }
        k = k + 1;
    }
    true
}

impl ColumnValuePair {
    /// Parses `ident` or `ident.ident`, answering the rest of the input
    /// and the pair.
    pub fn parse(input: &str) -> (r: Option<(&str, ColumnValuePair)>)
        ensures
            match (r, parse_cvp_at(input@, 0)) {
                (Some((rest, v)), Some((end, m))) => rest@ == input@.subrange(
                    end,
                    input@.len() as int,
                ) && v.deep_view() == m,
                (None, None) => true,
                _ => false,
            },
    {
        let n = input.unicode_len();
        let l1 = scan_run(input, 0, 0);
        if l1 == 0 {
            return None;
        }
        if l1 < n && input.get_char(l1) == '.' {
            let l2 = scan_run(input, l1 + 1, 0);
            if l2 == 0 {
                return None;
            }
            let table = input.substring_char(0, l1).to_owned();
            let column = input.substring_char(l1 + 1, l1 + 1 + l2).to_owned();
            let rest = input.substring_char(l1 + 1 + l2, n);
            Some((rest, ColumnValuePair { column_name: column, table_name: table }))
        } else {
            let column = input.substring_char(0, l1).to_owned();
            let rest = input.substring_char(l1, n);
            Some((rest, ColumnValuePair { column_name: column, table_name: String::new() }))
        }
    }
}

/// The join-clause grammar:
/// `INNER|LEFT|RIGHT|FULL JOIN table [AS alias] ON cvp = cvp`,
/// keywords case-insensitive.
pub open spec fn parse_join_at(s: Seq<char>) -> Option<(int, JoinM)> {
    let jt: Option<(int, JoinType)> = if tag_nocase_at(s, 0, "inner"@) {
        Some((5int, JoinType::Inner))
    } else if tag_nocase_at(s, 0, "left"@) {
        Some((4int, JoinType::Left))
    } else if tag_nocase_at(s, 0, "right"@) {
        Some((5int, JoinType::Right))
    } else if tag_nocase_at(s, 0, "full"@) {
        Some((4int, JoinType::Full))
    } else {
        None
    };
    match jt {
        None => None,
        Some((i1, join_type)) => {
            let w1 = run_len(s, i1, space_p());
            if w1 == 0 || !tag_nocase_at(s, i1 + w1, "join"@) {
                None
            } else {
                let i2 = i1 + w1 + 4;
                let w2 = run_len(s, i2, space_p());
                let tl = run_len(s, i2 + w2, alnum_p());
                if w2 == 0 || tl == 0 {
                    None
                } else {
                    let i3 = i2 + w2;
                    let i4 = i3 + tl;
                    let table = s.subrange(i3, i4);
                    let wa = run_len(s, i4, space_p());
                    let al = if wa > 0 && tag_nocase_at(s, i4 + wa, "as"@) {
                        let wb = run_len(s, i4 + wa + 2, space_p());
                        let all = run_len(s, i4 + wa + 2 + wb, alnum_p());
                        if wb > 0 && all > 0 {
                            Some((i4 + wa + 2 + wb + all, s.subrange(
                                i4 + wa + 2 + wb,
                                i4 + wa + 2 + wb + all,
                            )))
                        } else {
                            None
                        }
                    } else {
                        None
                    };
                    let i5 = match al {
                        Some((e, _)) => e,
                        None => i4,
                    };
                    let w3 = run_len(s, i5, space_p());
                    if w3 == 0 || !tag_nocase_at(s, i5 + w3, "on"@) {
                        None
                    } else {
                        let w4 = run_len(s, i5 + w3 + 2, space_p());
                        if w4 == 0 {
                            None
                        } else {
                            match parse_cvp_at(s, i5 + w3 + 2 + w4) {
                                None => None,
                                Some((i6, c1)) => {
                                    let w5 = run_len(s, i6, space_p());
                                    if !(i6 + w5 < s.len() && s[i6 + w5] == '=') {
                                        None
                                    } else {
                                        let w6 = run_len(s, i6 + w5 + 1, space_p());
                                        match parse_cvp_at(s, i6 + w5 + 1 + w6) {
                                            None => None,
                                            Some((i7, c2)) => Some(
                                                (
                                                    i7,
                                                    JoinM {
                                                        join_type,
                                                        table_ref: TableRefM {
                                                            name: table,
                                                            alias: match al {
                                                                Some((_, a)) => Some(a),
                                                                None => None,
                                                            },
                                                        },
                                                        on: (c1, c2),
                                                    },
                                                ),
                                            ),
                                        }
                                    }
                                },
                            }
                        }
                    }
                }
            }
        },
    }
}

impl JoinClause {
    /// Parses a join clause, answering the rest of the input and the
    /// clause.
    #[verifier::rlimit(60)]
    pub fn parse(input: &str) -> (r: Option<(&str, JoinClause)>)
        ensures
            match (r, parse_join_at(input@)) {
                (Some((rest, v)), Some((end, m))) => rest@ == input@.subrange(
                    end,
                    input@.len() as int,
                ) && v.deep_view() == m,
                (None, None) => true,
                _ => false,
            },
    {
        proof {
            reveal_strlit("inner");
            reveal_strlit("left");
            reveal_strlit("right");
            reveal_strlit("full");
            reveal_strlit("join");
            reveal_strlit("as");
            reveal_strlit("on");
        }
        let n = input.unicode_len();
        let jt: Option<(usize, JoinType)> = if tag_nocase(input, 0, "inner") {
            Some((5, JoinType::Inner))
        } else if tag_nocase(input, 0, "left") {
            Some((4, JoinType::Left))
        } else if tag_nocase(input, 0, "right") {
            Some((5, JoinType::Right))
        } else if tag_nocase(input, 0, "full") {
            Some((4, JoinType::Full))
        } else {
            return None;
        };
        let (i1, join_type) = match jt {
            Some(x) => x,
            None => {
                return None;
            },
        };
        let w1 = scan_run(input, i1, 2);
        if w1 == 0 || !tag_nocase(input, i1 + w1, "join") {
            return None;
        }
        let i2 = i1 + w1 + 4;
        let w2 = scan_run(input, i2, 2);
        let tl = scan_run(input, i2 + w2, 1);
        if w2 == 0 || tl == 0 {
            return None;
        }
        let i3 = i2 + w2;
        let i4 = i3 + tl;
        let table = input.substring_char(i3, i4).to_owned();
        let wa = scan_run(input, i4, 2);
        let mut alias: Option<String> = None;
        let mut i5 = i4;
        if wa > 0 && tag_nocase(input, i4 + wa, "as") {
            let wb = scan_run(input, i4 + wa + 2, 2);
            let all = scan_run(input, i4 + wa + 2 + wb, 1);
            if wb > 0 && all > 0 {
                alias = Some(input.substring_char(i4 + wa + 2 + wb, i4 + wa + 2 + wb + all).to_owned());
                i5 = i4 + wa + 2 + wb + all;
            }
        }
        let w3 = scan_run(input, i5, 2);
        if w3 == 0 || !tag_nocase(input, i5 + w3, "on") {
            return None;
        }
        let w4 = scan_run(input, i5 + w3 + 2, 2);
        if w4 == 0 {
            return None;
        }
        let sub1 = input.substring_char(i5 + w3 + 2 + w4, n);
        let ghost p1 = i5 + w3 + 2 + w4;
        let c1pair = ColumnValuePair::parse(sub1);
        proof {
            lemma_cvp_shift(input@, p1 as int);
        }
        let (rest1, c1) = match c1pair {
            Some(x) => x,
            None => {
                return None;
            },
        };
        let ghost i6 = p1 as int + parse_cvp_at(sub1@, 0).unwrap().0;
        proof {
            lemma_cvp_bounds(sub1@, 0);
            assert(rest1@.len() == input@.len() - i6);
        }
        let i6e: usize = n - rest1.unicode_len();
        proof {
            assert(i6e as int == i6);
        }
        let w5 = scan_run(input, i6e, 2);
        if !(i6e + w5 < n && input.get_char(i6e + w5) == '=') {
            return None;
        }
        let w6 = scan_run(input, i6e + w5 + 1, 2);
        let sub2 = input.substring_char(i6e + w5 + 1 + w6, n);
        let ghost p2 = i6e + w5 + 1 + w6;
        let c2pair = ColumnValuePair::parse(sub2);
        proof {
            lemma_cvp_shift(input@, p2 as int);
        }
        let (rest2, c2) = match c2pair {
            Some(x) => x,
            None => {
                return None;
            },
        };
        let ghost i7 = p2 as int + parse_cvp_at(sub2@, 0).unwrap().0;
        proof {
            lemma_cvp_bounds(sub2@, 0);
            assert(rest2@.len() == input@.len() - i7);
        }
        let i7e: usize = n - rest2.unicode_len();
        let rest = input.substring_char(i7e, n);
        proof {
            assert(i7e as int == i7);
        }
        Some(
            (
                rest,
                JoinClause {
                    join_type,
                    table_ref: crate::ast::TableReference { name: table, alias },
                    on: (c1, c2),
                },
            ),
        )
    }
}

/// A parsed pair ends inside the string, past its start.
pub proof fn lemma_cvp_bounds(s: Seq<char>, i: int)
    requires
        0 <= i <= s.len(),
    ensures
        match parse_cvp_at(s, i) {
            Some((e, _)) => i < e <= s.len(),
            None => true,
        },
{
    lemma_run_len(s, i, ident_p());
    let l1 = run_len(s, i, ident_p());
    if l1 > 0 && i + l1 < s.len() && s[i + l1] == '.' {
        lemma_run_len(s, i + l1 + 1, ident_p());
    }
}

/// Parsing a pair in the suffix is parsing it at the offset.
proof fn lemma_cvp_shift(s: Seq<char>, i: int)
    requires
        0 <= i <= s.len(),
    ensures
        match parse_cvp_at(s.subrange(i, s.len() as int), 0) {
            Some((e, m)) => parse_cvp_at(s, i) == Some((i + e, m)),
            None => parse_cvp_at(s, i) is None,
        },
{
    let sub = s.subrange(i, s.len() as int);
    lemma_run_shift(s, i, 0, ident_p());
    let l1 = run_len(s, i, ident_p());
    lemma_run_len(s, i, ident_p());
    assert(run_len(sub, 0, ident_p()) == l1);
    if l1 > 0 {
        assert(sub.len() == s.len() - i);
        assert(i + l1 < s.len() ==> sub[l1] == s[i + l1]);
        if i + l1 < s.len() && s[i + l1] == '.' {
            lemma_run_shift(s, i, l1 + 1, ident_p());
            let l2 = run_len(s, i + l1 + 1, ident_p());
            lemma_run_len(s, i + l1 + 1, ident_p());
            assert(run_len(sub, l1 + 1, ident_p()) == l2);
            if l2 > 0 {
                assert(sub.subrange(0, l1) =~= s.subrange(i, i + l1));
                assert(sub.subrange(l1 + 1, l1 + 1 + l2) =~= s.subrange(i + l1 + 1, i + l1 + 1 + l2));
                assert(parse_cvp_at(sub, 0) == Some(
                    (
                        l1 + 1 + l2,
                        CvpM {
                            table_name: s.subrange(i, i + l1),
                            column_name: s.subrange(i + l1 + 1, i + l1 + 1 + l2),
                        },
                    ),
                ));
            } else {
                assert(parse_cvp_at(sub, 0) is None);
                assert(parse_cvp_at(s, i) is None);
            }
        } else {
            assert(sub.subrange(0, l1) =~= s.subrange(i, i + l1));
            assert(parse_cvp_at(sub, 0) == Some(
                (l1, CvpM { table_name: Seq::empty(), column_name: s.subrange(i, i + l1) }),
            ));
        }
    } else {
        assert(parse_cvp_at(sub, 0) is None);
        assert(parse_cvp_at(s, i) is None);
    }
}

/// A character run in a suffix is the run at the offset.
proof fn lemma_run_shift(s: Seq<char>, i: int, j: int, p: spec_fn(char) -> bool)
    requires
        0 <= i,
        0 <= j,
        i + j <= s.len(),
    ensures
        run_len(s.subrange(i, s.len() as int), j, p) == run_len(s, i + j, p),
    decreases s.len() - i - j,
{
    let sub = s.subrange(i, s.len() as int);
    if j < sub.len() && p(sub[j]) {
        lemma_run_shift(s, i, j + 1, p);
    }
}

/// The literal grammar: a possibly signed integer whose magnitude fits
/// the machine word, or a single-quoted string; answers the position
/// after the literal and its model.
pub open spec fn parse_dv_at(s: Seq<char>, i: int) -> Option<(int, Val)> {
    if i < s.len() && s[i] == '\'' {
        let l = run_len(s, i + 1, text_p());
        if i + 1 + l < s.len() {
            Some((i + 1 + l + 1, Val::Text(s.subrange(i + 1, i + 1 + l))))
        } else {
            None
        }
    } else {
        let neg = i < s.len() && s[i] == '-';
        let d0 = if neg {
            i + 1
        } else {
            i
        };
        let dl = run_len(s, d0, digit_p());
        if dl == 0 {
            None
        } else {
            let v = if neg {
                -dec_val(s, d0, dl)
            } else {
                dec_val(s, d0, dl)
            };
            if -(i64::MAX as int) <= v <= i64::MAX as int {
                Some((d0 + dl, Val::Int(v)))
            } else {
                None
            }
        }
    }
}

/// The value of `len` decimal digits starting at `i`.
pub open spec fn dec_val(s: Seq<char>, i: int, len: int) -> int
    decreases len,
{
    if len <= 0 {
        0
    } else {
        dec_val(s, i, len - 1) * 10 + (s[i + len - 1] as u32 - 48)
    }
}

impl DataValue {
    /// Parses one literal, answering the rest of the input and the value;
    /// `None` exactly when the grammar rejects (an integer whose magnitude
    /// exceeds the machine word counts as rejected).
    pub fn parse(input: &str) -> (r: Option<(&str, DataValue)>)
        ensures
            match (r, parse_dv_at(input@, 0)) {
                (Some((rest, v)), Some((end, m))) => rest@ == input@.subrange(
                    end,
                    input@.len() as int,
                ) && v.deep_view() == m,
                (None, None) => true,
                _ => false,
            },
    {
        proof {
            reveal_strlit("'");
        }
        let n = input.unicode_len();
        if n > 0 && input.get_char(0) == '\'' {
            let l = scan_text_run(input, 1);
            if 1 + l < n {
                let text = input.substring_char(1, 1 + l).to_owned();
                let rest = input.substring_char(1 + l + 1, n);
                Some((rest, DataValue::Text(text)))
            } else {
                None
            }
        } else {
            let neg = n > 0 && input.get_char(0) == '-';
            let d0: usize = if neg {
                1
            } else {
                0
            };
            let dl = scan_run(input, d0, 3);
            if dl == 0 {
                return None;
            }
            let mut acc: i64 = 0;
            let mut k: usize = 0;
            let mut overflow = false;
            while k < dl
                invariant
                    n == input@.len(),
                    d0 + dl <= input@.len(),
                    dl as int == run_len(input@, d0 as int, digit_p()),
                    k <= dl,
                    !overflow ==> acc as int == dec_val(input@, d0 as int, k as int),
                    overflow ==> dec_val(input@, d0 as int, k as int) > i64::MAX as int,
                    acc >= 0,
                decreases dl - k,
            {
                proof {
                    lemma_run_chars(input@, d0 as int, k as int, dl as int);
                    assert(is_digit_char(input@[d0 + k]));
                }
                let c = input.get_char(d0 + k);
                let d = (c as u32) - 48;
                let ghost was_overflow = overflow;
                if acc > 922337203685477580i64 || (acc == 922337203685477580i64 && d > 7) {
                    overflow = true;
                }
                if !overflow {
                    acc = acc * 10 + (d as i64);
                }
                proof {
                    assert(dec_val(input@, d0 as int, k as int + 1) == dec_val(
                        input@,
                        d0 as int,
                        k as int,
                    ) * 10 + (input@[d0 + k] as u32 - 48));
                    if was_overflow {
                        assert(dec_val(input@, d0 as int, k as int) * 10 >= dec_val(
                            input@,
                            d0 as int,
                            k as int,
                        ));
                    }
                }
                k = k + 1;
            }
            if overflow {
                proof {
                    assert(parse_dv_at(input@, 0) is None);
                }
                return None;
            }
            let v: i64 = if neg {
                -acc
            } else {
                acc
            };
            let rest = input.substring_char(d0 + dl, n);
            Some((rest, DataValue::Integer(v)))
        }
    }
}

/// Characters of a digit run are digits.
proof fn lemma_run_chars(s: Seq<char>, i: int, k: int, dl: int)
    requires
        0 <= i,
        0 <= k < dl,
        dl == run_len(s, i, digit_p()),
        i + dl <= s.len(),
    ensures
        is_digit_char(s[i + k]),
    decreases k,
{
    if k == 0 {
    } else {
        lemma_run_chars(s, i + 1, k - 1, dl - 1);
    }
}

fn scan_text_run(s: &str, i: usize) -> (l: usize)
    requires
        i <= s@.len(),
    ensures
        l as int == run_len(s@, i as int, text_p()),
        i + l <= s@.len(),
{
    let ghost p: spec_fn(char) -> bool = text_p();
    let n = s.unicode_len();
    let mut j: usize = i;
    while j < n
        invariant
            n == s@.len(),
            i <= j <= n,
            run_len(s@, i as int, p) == (j - i) + run_len(s@, j as int, p),
            p == (text_p()),
        decreases n - j,
    {
        let c = s.get_char(j);
        if c == '\'' {
            proof {
                assert(run_len(s@, j as int, p) == 0);
            }
            return j - i;
        }
        j = j + 1;
    }
    proof {
        assert(run_len(s@, n as int, p) == 0);
    }
    j - i
}

/// A parsed literal ends inside the string, past its start.
pub proof fn lemma_dv_bounds(s: Seq<char>, i: int)
    requires
        0 <= i <= s.len(),
    ensures
        match parse_dv_at(s, i) {
            Some((e, _)) => i < e <= s.len(),
            None => true,
        },
{
    if i < s.len() && s[i] == '\'' {
        lemma_run_len(s, i + 1, text_p());
    } else {
        let neg = i < s.len() && s[i] == '-';
        let d0 = if neg {
            i + 1
        } else {
            i
        };
        if d0 <= s.len() {
            lemma_run_len(s, d0, digit_p());
        }
    }
}

/// Parsing a literal in the suffix is parsing it at the offset.
pub proof fn lemma_dv_shift(s: Seq<char>, i: int)
    requires
        0 <= i <= s.len(),
    ensures
        match parse_dv_at(s.subrange(i, s.len() as int), 0) {
            Some((e, m)) => parse_dv_at(s, i) == Some((i + e, m)),
            None => parse_dv_at(s, i) is None,
        },
{
    let sub = s.subrange(i, s.len() as int);
    if i < s.len() && s[i] == '\'' {
        lemma_run_shift(s, i, 1, text_p());
        let l = run_len(s, i + 1, text_p());
        lemma_run_len(s, i + 1, text_p());
        assert(run_len(sub, 1, text_p()) == l);
        if i + 1 + l < s.len() {
            assert(sub.subrange(1, 1 + l) =~= s.subrange(i + 1, i + 1 + l));
        }
    } else {
        let neg = i < s.len() && s[i] == '-';
        let d0 = if neg {
            i + 1
        } else {
            i
        };
        let sd0 = d0 - i;
        lemma_run_shift(s, i, sd0, digit_p());
        let dl = run_len(s, d0, digit_p());
        lemma_run_len(s, d0, digit_p());
        assert(run_len(sub, sd0, digit_p()) == dl);
        if dl > 0 {
            lemma_dec_val_shift(s, i, sd0, dl);
        }
    }
}

/// Digit values agree between a suffix and the original string.
proof fn lemma_dec_val_shift(s: Seq<char>, i: int, a: int, len: int)
    requires
        0 <= i,
        0 <= a,
        i + a + len <= s.len(),
        0 <= len,
    ensures
        dec_val(s.subrange(i, s.len() as int), a, len) == dec_val(s, i + a, len),
    decreases len,
{
    if len > 0 {
        lemma_dec_val_shift(s, i, a, len - 1);
        assert(s.subrange(i, s.len() as int)[a + len - 1] == s[i + a + len - 1]);
    }
}

/// The literal list grammar of INSERT: literals separated by a comma and
/// optional whitespace; answers the position after the list and the
/// values. An empty list is allowed.
pub open spec fn parse_vals_at(s: Seq<char>, i: int) -> (int, Seq<Val>)
    decreases s.len() - i,
{
    if !(0 <= i <= s.len()) {
        (i, Seq::empty())
    } else {
        match parse_dv_at(s, i) {
            None => (i, Seq::empty()),
            Some((j, v)) => {
                if !(i < j <= s.len()) {
                    (i, Seq::empty())
                } else if j < s.len() && s[j] == ',' {
                    let w = run_len(s, j + 1, space_p());
                    if 0 <= w && j + 1 + w <= s.len() && parse_dv_at(s, j + 1 + w) is Some {
                        let r = parse_vals_at(s, j + 1 + w);
                        (r.0, seq![v] + r.1)
                    } else {
                        (j, seq![v])
                    }
                } else {
                    (j, seq![v])
                }
            },
        }
    }
}

/// The INSERT grammar:
/// `INSERT INTO table VALUES (v, ...)`, the keywords case-sensitive.
pub open spec fn parse_insert_at(s: Seq<char>) -> Option<(int, crate::ast::InsertM)> {
    if !tag_at(s, 0, "INSERT INTO"@) {
        None
    } else {
        let w1 = run_len(s, 11, space_p());
        let tl = run_len(s, 11 + w1, alnum_p());
        if w1 == 0 || tl == 0 {
            None
        } else {
            let i2 = 11 + w1 + tl;
            let table = s.subrange(11 + w1, i2);
            let w2 = run_len(s, i2, space_p());
            if w2 == 0 || !tag_at(s, i2 + w2, "VALUES"@) {
                None
            } else {
                let i3 = i2 + w2 + 6;
                let w3 = run_len(s, i3, space_p());
                if !(w3 > 0 && i3 + w3 < s.len() && s[i3 + w3] == '(') {
                    None
                } else {
                    let r = parse_vals_at(s, i3 + w3 + 1);
                    if r.0 < s.len() && s[r.0] == ')' {
                        Some((r.0 + 1, crate::ast::InsertM { table, values: r.1 }))
                    } else {
                        None
                    }
                }
            }
        }
    }
}

/// Whether the text at `i` is exactly the word `t`.
fn tag_exact(s: &str, i: usize, t: &str) -> (r: bool)
    requires
        i <= s@.len(),
    ensures
        r == tag_at(s@, i as int, t@),
{
    let tl = t.unicode_len();
    let n = s.unicode_len();
    if n - i < tl {
        return false;
    }
    let mut k: usize = 0;
    while k < tl
        invariant
            tl == t@.len(),
            n == s@.len(),
            i + tl <= n,
            k <= tl,
            forall|q: int| 0 <= q < k ==> #[trigger] s@[i + q] == t@[q],
        decreases tl - k,
    {
        if s.get_char(i + k) != t.get_char(k) {
            return false;
        }
        k = k + 1;
    }
    true
}

impl InsertStatement {
    /// Parses an INSERT statement, answering the rest of the input and
    /// the statement; `None` exactly when the grammar rejects (integer
    /// literals whose magnitude exceeds the machine word count as
    /// rejected).
    #[verifier::rlimit(60)]
    pub fn parse(input: &str) -> (r: Option<(&str, Statement)>)
        ensures
            match (r, parse_insert_at(input@)) {
                (Some((rest, v)), Some((end, m))) => rest@ == input@.subrange(
                    end,
                    input@.len() as int,
                ) && v.deep_view() == crate::ast::StatementM::Insert(m),
                (None, None) => true,
                _ => false,
            },
    {
        proof {
            reveal_strlit("INSERT INTO");
            reveal_strlit("VALUES");
            reveal_strlit("(");
            reveal_strlit(")");
            reveal_strlit(",");
        }
        let n = input.unicode_len();
        if !tag_exact(input, 0, "INSERT INTO") {
            return None;
        }
        let w1 = scan_run(input, 11, 2);
        let tl = scan_run(input, 11 + w1, 1);
        if w1 == 0 || tl == 0 {
            return None;
        }
        let i2 = 11 + w1 + tl;
        let table = input.substring_char(11 + w1, i2).to_owned();
        let w2 = scan_run(input, i2, 2);
        if w2 == 0 || !tag_exact(input, i2 + w2, "VALUES") {
            return None;
        }
        let i3 = i2 + w2 + 6;
        let w3 = scan_run(input, i3, 2);
        if !(w3 > 0 && i3 + w3 < n && input.get_char(i3 + w3) == '(') {
            return None;
        }
        let start = i3 + w3 + 1;
        // the literal list
        let mut vals: Vec<DataValue> = Vec::new();
        let mut cur: usize = start;
        let mut done = false;
        while !done
            invariant
                n == input@.len(),
                start <= cur <= n,
                !done ==> parse_vals_at(input@, start as int) == (
                    parse_vals_at(input@, cur as int).0,
                    vals.deep_view() + parse_vals_at(input@, cur as int).1,
                ),
                done ==> parse_vals_at(input@, start as int) == (
                    cur as int,
                    vals.deep_view(),
                ),
            decreases n - cur + (if done {
                0int
            } else {
                1int
            }),
        {
            let sub = input.substring_char(cur, n);
            proof {
                lemma_dv_shift(input@, cur as int);
            }
            match DataValue::parse(sub) {
                None => {
                    proof {
                        assert(parse_dv_at(input@, cur as int) is None);
                        assert(vals.deep_view() + Seq::<Val>::empty() =~= vals.deep_view());
                    }
                    done = true;
                },
                Some((rest, v)) => {
                    proof {
                        lemma_dv_bounds(input@, cur as int);
                    }
                    let j: usize = n - rest.unicode_len();
                    let ghost jm = parse_dv_at(input@, cur as int).unwrap().0;
                    proof {
                        assert(rest@ == sub@.subrange(
                            parse_dv_at(sub@, 0).unwrap().0,
                            sub@.len() as int,
                        ));
                        assert(j as int == jm);
                    }
                    let ghost prev = vals.deep_view();
                    vals.push(v);
                    if j < n && input.get_char(j) == ',' {
                        let w = scan_run(input, j + 1, 2);
                        let subp = input.substring_char(j + 1 + w, n);
                        proof {
                            lemma_dv_shift(input@, (j + 1 + w) as int);
                        }
                        let peek_ok = match DataValue::parse(subp) {
                            Some(_) => true,
                            None => false,
                        };
                        if peek_ok {
                            proof {
                                assert(vals.deep_view() =~= prev.push(
                                    parse_dv_at(input@, cur as int).unwrap().1,
                                ));
                                assert(prev + (seq![
                                    parse_dv_at(input@, cur as int).unwrap().1,
                                ] + parse_vals_at(input@, (j + 1 + w) as int).1) =~= vals.deep_view()
                                    + parse_vals_at(input@, (j + 1 + w) as int).1);
                            }
                            cur = j + 1 + w;
                        } else {
                            proof {
                                assert(vals.deep_view() =~= prev.push(
                                    parse_dv_at(input@, cur as int).unwrap().1,
                                ));
                                assert(parse_vals_at(input@, cur as int) == (
                                    j as int,
                                    seq![parse_dv_at(input@, cur as int).unwrap().1],
                                ));
                                assert(prev + seq![
                                    parse_dv_at(input@, cur as int).unwrap().1,
                                ] =~= vals.deep_view());
                                assert(vals.deep_view() + Seq::<Val>::empty()
                                    =~= vals.deep_view());
                            }
                            cur = j;
                            done = true;
                        }
                    } else {
                        proof {
                            assert(vals.deep_view() =~= prev.push(
                                parse_dv_at(input@, cur as int).unwrap().1,
                            ));
                            assert(parse_vals_at(input@, cur as int) == (
                                j as int,
                                seq![parse_dv_at(input@, cur as int).unwrap().1],
                            ));
                            assert(prev + seq![
                                parse_dv_at(input@, cur as int).unwrap().1,
                            ] =~= vals.deep_view());
                            assert(vals.deep_view() + Seq::<Val>::empty() =~= vals.deep_view());
                        }
                        cur = j;
                        done = true;
                    }
                },
            }
        }
        proof {
            assert(vals.deep_view() + Seq::<Val>::empty() =~= vals.deep_view());
        }
        if !(cur < n && input.get_char(cur) == ')') {
            return None;
        }
        let rest = input.substring_char(cur + 1, n);
        Some(
            (
                rest,
                Statement::Insert(crate::ast::InsertStatement::IntoTable(table, vals)),
            ),
        )
    }
}


} // verus!
