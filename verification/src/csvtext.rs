use vstd::prelude::*;
use crate::num::chars_of;

verus! {

/// A character that ends an unquoted field.
pub open spec fn is_sep(c: char) -> bool {
    c == ',' || c == '\n' || c == '\r'
}

/// The first position at or after `i` holding a separator.
pub open spec fn scan_unquoted(s: Seq<char>, i: int) -> int
    decreases s.len() - i,
{
    if i < 0 || i >= s.len() || is_sep(s[i]) {
        i
    } else {
        scan_unquoted(s, i + 1)
    }
}

pub proof fn lemma_scan_unquoted(s: Seq<char>, i: int)
    requires
        0 <= i <= s.len(),
    ensures
        i <= scan_unquoted(s, i) <= s.len(),
        forall|j: int| i <= j < scan_unquoted(s, i) ==> !is_sep(#[trigger] s[j]),
        scan_unquoted(s, i) < s.len() ==> is_sep(s[scan_unquoted(s, i)]),
    decreases s.len() - i,
{
    if i < s.len() && !is_sep(s[i]) {
        lemma_scan_unquoted(s, i + 1);
    }
}

/// Read the body of a quoted field that starts at `i` (just after the opening
/// quote): a doubled quote stands for one quote character, a lone quote ends
/// the field, and a field still open at the end of the text is an error.
pub open spec fn parse_quoted(s: Seq<char>, i: int, acc: Seq<char>) -> Option<(Seq<char>, int)>
    decreases s.len() - i,
{
    if i < 0 || i >= s.len() {
        None
    } else if s[i] == '"' {
        if i + 1 < s.len() && s[i + 1] == '"' {
            parse_quoted(s, i + 2, acc.push('"'))
        } else {
            Some((acc, i + 1))
        }
    } else {
        parse_quoted(s, i + 1, acc.push(s[i]))
    }
}

pub proof fn lemma_parse_quoted_end(s: Seq<char>, i: int, acc: Seq<char>)
    ensures
        parse_quoted(s, i, acc) matches Some((f, e)) ==> i + 1 <= e <= s.len(),
    decreases s.len() - i,
{
    if i < 0 || i >= s.len() {
    } else if s[i] == '"' {
        if i + 1 < s.len() && s[i + 1] == '"' {
            lemma_parse_quoted_end(s, i + 2, acc.push('"'));
        }
    } else {
        lemma_parse_quoted_end(s, i + 1, acc.push(s[i]));
    }
}

/// One field starting at `i`: quoted if it opens with a quote, otherwise the
/// run of characters up to the next separator.  Returns the field's text and
/// the position just after it.
pub open spec fn parse_field(s: Seq<char>, i: int) -> Option<(Seq<char>, int)> {
    if 0 <= i < s.len() && s[i] == '"' {
        parse_quoted(s, i + 1, Seq::empty())
    } else {
        Some((s.subrange(i, scan_unquoted(s, i)), scan_unquoted(s, i)))
    }
}

pub proof fn lemma_parse_field_end(s: Seq<char>, i: int)
    requires
        0 <= i <= s.len(),
    ensures
        parse_field(s, i) matches Some((f, e)) ==> i <= e <= s.len(),
{
    if 0 <= i < s.len() && s[i] == '"' {
        lemma_parse_quoted_end(s, i + 1, Seq::empty());
    } else {
        lemma_scan_unquoted(s, i);
    }
}

/// One record starting at `i`: fields separated by commas, ended by a line
/// break or the end of the text.  A quoted field must be followed directly by
/// a separator.  Returns the fields and the position after the line break.
pub open spec fn parse_record(s: Seq<char>, i: int) -> Option<(Seq<Seq<char>>, int)>
    decreases s.len() - i,
        when 0 <= i <= s.len()
        via parse_record_dec
{
    match parse_field(s, i) {
        None => None,
        Some((f, j)) => {
            if j >= s.len() {
                Some((seq![f], s.len() as int))
            } else if s[j] == ',' {
                match parse_record(s, j + 1) {
                    None => None,
                    Some((fs, k)) => Some((seq![f] + fs, k)),
                }
            } else if s[j] == '\n' {
                Some((seq![f], j + 1))
            } else if s[j] == '\r' {
                if j + 1 < s.len() && s[j + 1] == '\n' {
                    Some((seq![f], j + 2))
                } else {
                    Some((seq![f], j + 1))
                }
            } else {
                None
            }
        },
    }
}

#[via_fn]
proof fn parse_record_dec(s: Seq<char>, i: int) {
    lemma_parse_field_end(s, i);
}

pub proof fn lemma_parse_record_end(s: Seq<char>, i: int)
    requires
        0 <= i <= s.len(),
    ensures
        parse_record(s, i) matches Some((r, k)) ==> i <= k <= s.len() && (i < s.len() ==> i + 1
            <= k),
    decreases s.len() - i,
{
    lemma_parse_field_end(s, i);
    match parse_field(s, i) {
        None => {},
        Some((f, j)) => {
            if j < s.len() && s[j] == ',' {
                lemma_parse_record_end(s, j + 1);
            }
        },
    }
}

/// The rows of a text: records until the text ends; an empty text has no
/// rows, and the final record need not carry a line break.
pub open spec fn parse_rows(s: Seq<char>, i: int) -> Option<Seq<Seq<Seq<char>>>>
    decreases s.len() - i,
        when 0 <= i <= s.len()
        via parse_rows_dec
{
    if i >= s.len() {
        Some(Seq::empty())
    } else {
        match parse_record(s, i) {
            None => None,
            Some((r, k)) => match parse_rows(s, k) {
                None => None,
                Some(rs) => Some(seq![r] + rs),
            },
        }
    }
}

#[via_fn]
proof fn parse_rows_dec(s: Seq<char>, i: int) {
    if 0 <= i < s.len() {
        lemma_parse_record_end(s, i);
    }
}

/// The field texts of a record vector.
pub open spec fn fields_view(fs: Seq<String>) -> Seq<Seq<char>> {
    fs.map_values(|f: String| f@)
}

/// The field texts of all rows.
pub open spec fn rows_view(rs: Seq<Vec<String>>) -> Seq<Seq<Seq<char>>> {
    rs.map_values(|r: Vec<String>| fields_view(r@))
}

/// Relies on `String: FromIterator<char>` (`Iterator::collect`): the
/// collected string holds exactly the iterated characters, in order.
#[verifier::external_body]
pub(crate) fn chars_to_string(v: &Vec<char>) -> (s: String)
    ensures
        s@ == v@,
{
    v.iter().collect()
}

fn unquoted_field(cs: &Vec<char>, i: usize) -> (r: (Vec<char>, usize))
    requires
        i <= cs@.len(),
    ensures
        r.1 as int == scan_unquoted(cs@, i as int),
        r.0@ == cs@.subrange(i as int, scan_unquoted(cs@, i as int)),
{
    proof {
        lemma_scan_unquoted(cs@, i as int);
    }
    let n = cs.len();
    let mut out: Vec<char> = Vec::new();
    let mut j = i;
    while j < n && cs[j] != ',' && cs[j] != '\n' && cs[j] != '\r'
        invariant
            i <= j <= n,
            n == cs@.len(),
            forall|k: int| i <= k < j ==> !is_sep(#[trigger] cs@[k]),
            out@ == cs@.subrange(i as int, j as int),
        decreases n - j,
    {
        out.push(cs[j]);
        proof {
            assert(cs@.subrange(i as int, j + 1) =~= cs@.subrange(i as int, j as int).push(
                cs@[j as int],
            ));
        }
        j = j + 1;
    }
    proof {
        let e = scan_unquoted(cs@, i as int);
        assert(j as int == e) by {
            if (j as int) < e {
                assert(is_sep(cs@[j as int]));
            }
            if (j as int) > e {
                assert(!is_sep(cs@[e]));
            }
        }
    }
    (out, j)
}

fn quoted_field(cs: &Vec<char>, i: usize) -> (r: Option<(Vec<char>, usize)>)
    requires
        i <= cs@.len(),
    ensures
        match r {
            Some((f, e)) => parse_quoted(cs@, i as int, Seq::empty()) == Some((f@, e as int))
                && e <= cs@.len(),
            None => parse_quoted(cs@, i as int, Seq::empty()) is None,
        },
{
    let n = cs.len();
    let mut acc: Vec<char> = Vec::new();
    let mut j = i;
    loop
        invariant
            i <= j,
            j <= n,
            n == cs@.len(),
            parse_quoted(cs@, i as int, Seq::empty()) == parse_quoted(cs@, j as int, acc@),
        decreases n - j,
    {
        if j >= n {
            return None;
        }
        let c = cs[j];
        if c == '"' {
            if j + 1 < n && cs[j + 1] == '"' {
                acc.push('"');
                j = j + 2;
            } else {
                return Some((acc, j + 1));
            }
        } else {
            acc.push(c);
            j = j + 1;
        }
    }
}

/// How a record's remaining fields extend the fields already read.
pub open spec fn rec_combine(pre: Seq<Seq<char>>, r: Option<(Seq<Seq<char>>, int)>) -> Option<
    (Seq<Seq<char>>, int),
> {
    match r {
        None => None,
        Some((fs, k)) => Some((pre + fs, k)),
    }
}

fn record_at(cs: &Vec<char>, i: usize) -> (r: Option<(Vec<String>, usize)>)
    requires
        i <= cs@.len(),
    ensures
        match r {
            Some((fs, e)) => parse_record(cs@, i as int) == Some((fields_view(fs@), e as int))
                && i <= e <= cs@.len() && (i < cs@.len() ==> i + 1 <= e),
            None => parse_record(cs@, i as int) is None,
        },
{
    let n = cs.len();
    let mut fields: Vec<String> = Vec::new();
    let mut cur = i;
    loop
        invariant
            i <= cur <= n,
            n == cs@.len(),
            parse_record(cs@, i as int) == rec_combine(
                fields_view(fields@),
                parse_record(cs@, cur as int),
            ),
        decreases n - cur,
    {
        proof {
            lemma_parse_record_end(cs@, cur as int);
            lemma_parse_field_end(cs@, cur as int);
        }
        let quoted = cur < n && cs[cur] == '"';
        let f: Vec<char>;
        let j: usize;
        if quoted {
            match quoted_field(cs, cur + 1) {
                Some((fq, e)) => {
                    f = fq;
                    j = e;
                },
                None => {
                    return None;
                },
            }
        } else {
            let r = unquoted_field(cs, cur);
            f = r.0;
            j = r.1;
        }
        proof {
            assert(parse_field(cs@, cur as int) == Some((f@, j as int)));
            if !quoted {
                lemma_scan_unquoted(cs@, cur as int);
            }
            assert(cur <= j <= n);
        }
        let ghost pre = fields_view(fields@);
        let fstr = chars_to_string(&f);
        if j >= n {
            fields.push(fstr);
            proof {
                assert(parse_record(cs@, cur as int) == Some((seq![f@], n as int)));
                assert(fields_view(fields@) =~= pre + seq![f@]);
            }
            return Some((fields, n));
        }
        let c = cs[j];
        if c == ',' {
            fields.push(fstr);
            proof {
                assert(fields_view(fields@) =~= pre.push(f@));
                match parse_record(cs@, j + 1) {
                    None => {
                        assert(parse_record(cs@, cur as int) is None);
                    },
                    Some((fs, k)) => {
                        assert(parse_record(cs@, cur as int) == Some((seq![f@] + fs, k)));
                        assert(pre + (seq![f@] + fs) =~= pre.push(f@) + fs);
                    },
                }
            }
            cur = j + 1;
        } else if c == '\n' {
            fields.push(fstr);
            proof {
                assert(parse_record(cs@, cur as int) == Some((seq![f@], j + 1)));
                assert(fields_view(fields@) =~= pre + seq![f@]);
            }
            return Some((fields, j + 1));
        } else if c == '\r' {
            fields.push(fstr);
            proof {
                assert(fields_view(fields@) =~= pre + seq![f@]);
            }
            if j + 1 < n && cs[j + 1] == '\n' {
                proof {
                    assert(parse_record(cs@, cur as int) == Some((seq![f@], j + 2)));
                }
                return Some((fields, j + 2));
            } else {
                proof {
                    assert(parse_record(cs@, cur as int) == Some((seq![f@], j + 1)));
                }
                return Some((fields, j + 1));
            }
        } else {
            proof {
                assert(parse_record(cs@, cur as int) is None);
            }
            return None;
        }
    }
}

/// How the remaining rows extend the rows already read.
pub open spec fn rows_combine(
    pre: Seq<Seq<Seq<char>>>,
    r: Option<Seq<Seq<Seq<char>>>>,
) -> Option<Seq<Seq<Seq<char>>>> {
    match r {
        None => None,
        Some(rs) => Some(pre + rs),
    }
}

/// Split a text into its CSV rows of fields, or report that the text is not
/// well-formed (an unclosed quote, or a quoted field not followed by a
/// separator).
pub fn parse_csv(text: &str) -> (r: Option<Vec<Vec<String>>>)
    ensures
        match r {
            Some(rows) => parse_rows(text@, 0) == Some(rows_view(rows@)),
            None => parse_rows(text@, 0) is None,
        },
{
    let cs = chars_of(text);
    let n = cs.len();
    let mut rows: Vec<Vec<String>> = Vec::new();
    let mut cur: usize = 0;
    while cur < n
        invariant
            cur <= n,
            n == cs@.len(),
            cs@ == text@,
            parse_rows(text@, 0) == rows_combine(rows_view(rows@), parse_rows(text@, cur as int)),
        decreases n - cur,
    {
        let ghost pre = rows_view(rows@);
        match record_at(&cs, cur) {
            None => {
                proof {
                    assert(parse_rows(text@, cur as int) is None);
                }
                return None;
            },
            Some((fs, e)) => {
                proof {
                    assert(cur + 1 <= e);
                }
                rows.push(fs);
                proof {
                    assert(rows_view(rows@) =~= pre.push(fields_view(fs@)));
                    match parse_rows(text@, e as int) {
                        None => {
                            assert(parse_rows(text@, cur as int) is None);
                        },
                        Some(rs) => {
                            assert(parse_rows(text@, cur as int) == Some(
                                seq![fields_view(fs@)] + rs,
                            ));
                            assert(pre + (seq![fields_view(fs@)] + rs) =~= pre.push(
                                fields_view(fs@),
                            ) + rs);
                        },
                    }
                }
                cur = e;
            },
        }
    }
    proof {
        assert(parse_rows(text@, n as int) == Some(Seq::<Seq<Seq<char>>>::empty()));
        assert(rows_view(rows@) + Seq::<Seq<Seq<char>>>::empty() =~= rows_view(rows@));
    }
    Some(rows)
}

} // verus!
