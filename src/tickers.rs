//! Ticker lists: normalisation of comma-separated and line-oriented text.
//!
//! A ticker is trimmed and upper-cased (ASCII); lists come out sorted in
//! code-point order, without duplicates or empty entries.

use vstd::prelude::*;
use crate::text::{
    char_views, chars_eq, chars_lt, chars_of, lemma_lex_lt_total, lemma_lex_lt_transitive, lex_lt,
    split_chars, split_on, string_of, strictly_sorted, trim, trim_chars, upper, upper_chars, views,
    is_upper, lemma_lex_lt_irreflexive, is_ws, lemma_split_pieces, lemma_trim_props,
    lemma_upcase_keeps, upcase,
};

verus! {

/// The normalised form of one raw ticker.
pub open spec fn ticker_of(piece: Seq<char>) -> Seq<char> {
    upper(trim(piece))
}

/// The tickers named by a comma-separated list.
pub open spec fn csv_tickers(raw: Seq<char>) -> Set<Seq<char>> {
    Set::new(
        |t: Seq<char>|
            exists|i: int|
                0 <= i < split_on(raw, ',').len() && trim(#[trigger] split_on(raw, ',')[i]).len()
                    > 0 && t == ticker_of(split_on(raw, ',')[i]),
    )
}

/// The ticker named by one line of a ticker file: text before a `#` comment,
/// trimmed; none for blank and comment lines.
pub open spec fn line_ticker(line: Seq<char>) -> Option<Seq<char>> {
    let s = trim(line);
    if s.len() == 0 || s[0] == '#' {
        None
    } else {
        let t = trim(split_on(s, '#')[0]);
        if t.len() == 0 {
            None
        } else {
            Some(upper(t))
        }
    }
}

/// The tickers named by the lines of a ticker file.
pub open spec fn file_tickers(text: Seq<char>) -> Set<Seq<char>> {
    Set::new(
        |t: Seq<char>|
            exists|i: int|
                0 <= i < split_on(text, '\n').len() && line_ticker(
                    #[trigger] split_on(text, '\n')[i],
                ) == Some(t),
    )
}

/// `v` lists exactly the texts of `s`, in strictly increasing order.
pub open spec fn lists_sorted(v: Seq<Seq<char>>, s: Set<Seq<char>>) -> bool {
    strictly_sorted(v) && v.to_set() == s
}

/// Why a ticker list could not be had.
#[derive(Debug)]
pub enum TickersError {
    /// Neither a ticker file nor a ticker text was given.
    MissingSource,
    /// The ticker file names no ticker.
    EmptyFromFile { path: String },
    /// The ticker text names no ticker.
    EmptyFromArg { raw: String },
    /// The ticker file could not be read.
    ReadFile { path: String, reason: String },
}

pub proof fn lemma_split_on_nonempty(s: Seq<char>, sep: char)
    ensures
        split_on(s, sep).len() > 0,
    decreases s.len(),
{
    if s.len() > 0 {
        lemma_split_on_nonempty(s.drop_last(), sep);
    }
}

proof fn lemma_upper_is_upper(s: Seq<char>)
    ensures
        is_upper(upper(s)),
        upper(s).len() == s.len(),
{
}

/// Inserts `t` into the strictly sorted list `v`, unless it is there.
fn insert_sorted(v: &mut Vec<Vec<char>>, t: Vec<char>)
    requires
        strictly_sorted(char_views(old(v)@)),
    ensures
        strictly_sorted(char_views(final(v)@)),
        char_views(final(v)@).to_set() == char_views(old(v)@).to_set().insert(t@),
{
    let ghost old_v = char_views(v@);
    let mut i: usize = 0;
    while i < v.len() && chars_lt(&v[i], &t)
        invariant
            i <= v.len(),
            char_views(v@) == old_v,
            strictly_sorted(old_v),
            forall|k: int| 0 <= k < i ==> lex_lt(#[trigger] old_v[k], t@),
        decreases v.len() - i,
    {
        i += 1;
    }
    if i < v.len() && chars_eq(&v[i], &t) {
        assert(old_v.to_set().insert(t@) =~= old_v.to_set()) by {
            assert(old_v[i as int] == t@);
        }
        return;
    }
    proof {
        if i < v.len() {
            assert(!lex_lt(old_v[i as int], t@));
            assert(old_v[i as int] != t@);
            lemma_lex_lt_total(old_v[i as int], t@);
            assert forall|k: int| i <= k < old_v.len() implies lex_lt(t@, #[trigger] old_v[k]) by {
                if k > i {
                    lemma_lex_lt_transitive(t@, old_v[i as int], old_v[k]);
                }
            }
        }
    }
    let ghost tv = t@;
    v.insert(i, t);
    let ghost nv = char_views(v@);
    assert(nv =~= old_v.insert(i as int, tv));
    assert(strictly_sorted(nv)) by {
        assert forall|a: int, b: int| 0 <= a < b < nv.len() implies lex_lt(
            #[trigger] nv[a],
            #[trigger] nv[b],
        ) by {
            if b < i {
            } else if b == i {
            } else if a < i {
                assert(nv[b] == old_v[b - 1]);
                assert(lex_lt(tv, old_v[b - 1]));
                lemma_lex_lt_transitive(old_v[a], tv, old_v[b - 1]);
            } else if a == i {
                assert(nv[b] == old_v[b - 1]);
            } else {
                assert(nv[a] == old_v[a - 1]);
                assert(nv[b] == old_v[b - 1]);
            }
        }
    }
    assert(nv.to_set() =~= old_v.to_set().insert(tv)) by {
        assert forall|x: Seq<char>| nv.to_set().contains(x) implies old_v.to_set().insert(
            tv,
        ).contains(x) by {
            let k = choose|k: int| 0 <= k < nv.len() && nv[k] == x;
            if k < i {
                assert(old_v[k] == x);
            } else if k > i {
                assert(old_v[k - 1] == x);
            }
        }
        assert forall|x: Seq<char>| old_v.to_set().insert(tv).contains(x) implies nv.to_set().contains(
            x,
        ) by {
            if x == tv {
                assert(nv[i as int] == x);
            } else {
                let k = choose|k: int| 0 <= k < old_v.len() && old_v[k] == x;
                if k < i {
                    assert(nv[k] == x);
                } else {
                    assert(nv[k + 1] == x);
                }
            }
        }
    }
}

/// The strings made of the character lists of `v`.
fn strings_of(v: &Vec<Vec<char>>) -> (r: Vec<String>)
    ensures
        views(r@) == char_views(v@),
{
    let mut r: Vec<String> = Vec::new();
    let mut i: usize = 0;
    while i < v.len()
        invariant
            i <= v.len(),
            views(r@) == char_views(v@).take(i as int),
        decreases v.len() - i,
    {
        let s = string_of(&v[i]);
        let ghost r0 = r@;
        r.push(s);
        assert(r@ =~= r0.push(s));
        assert(views(r@) =~= views(r0).push(s@));
        assert(char_views(v@).take(i + 1) =~= char_views(v@).take(i as int).push(v@[i as int]@));
        i += 1;
    }
    assert(char_views(v@).take(v.len() as int) =~= char_views(v@));
    r
}

/// Parses a comma-separated ticker list such as `"aapl, TSLA, ,goog"`:
/// each item trimmed and upper-cased, empty items dropped, the result
/// sorted and without duplicates.
pub fn parse_tickers_csv(raw: &str) -> (r: Vec<String>)
    ensures
        lists_sorted(views(r@), csv_tickers(raw@)),
{
    let chars = chars_of(raw);
    let pieces = split_chars(&chars, ',');
    let ghost ps = split_on(raw@, ',');
    let mut set: Vec<Vec<char>> = Vec::new();
    let mut i: usize = 0;
    while i < pieces.len()
        invariant
            i <= pieces.len(),
            char_views(pieces@) == ps,
            strictly_sorted(char_views(set@)),
            char_views(set@).to_set() == Set::new(
                |t: Seq<char>|
                    exists|k: int|
                        0 <= k < i && trim(#[trigger] ps[k]).len() > 0 && t == ticker_of(ps[k]),
            ),
        decreases pieces.len() - i,
    {
        let ghost before = char_views(set@).to_set();
        let t = trim_chars(&pieces[i]);
        assert(pieces@[i as int]@ == ps[i as int]);
        if t.len() > 0 {
            let u = upper_chars(&t);
            let ghost uv = u@;
            insert_sorted(&mut set, u);
            assert(char_views(set@).to_set() =~= Set::new(
                |x: Seq<char>|
                    exists|k: int|
                        0 <= k < i + 1 && trim(#[trigger] ps[k]).len() > 0 && x == ticker_of(ps[k]),
            )) by {
                assert forall|x: Seq<char>|
                    #![trigger before.contains(x)]
                    before.insert(uv).contains(x) implies exists|k: int|
                    0 <= k < i + 1 && trim(#[trigger] ps[k]).len() > 0 && x == ticker_of(ps[k]) by {
                    if x == uv {
                        assert(trim(ps[i as int]).len() > 0 && x == ticker_of(ps[i as int]));
                    }
                }
                assert forall|x: Seq<char>|
                    (exists|k: int|
                        0 <= k < i + 1 && trim(#[trigger] ps[k]).len() > 0 && x == ticker_of(
                            ps[k],
                        )) implies before.insert(uv).contains(x) by {
                    let k = choose|k: int|
                        0 <= k < i + 1 && trim(#[trigger] ps[k]).len() > 0 && x == ticker_of(ps[k]);
                    if k < i {
                        assert(before.contains(x));
                    }
                }
            }
        } else {
            assert(char_views(set@).to_set() =~= Set::new(
                |x: Seq<char>|
                    exists|k: int|
                        0 <= k < i + 1 && trim(#[trigger] ps[k]).len() > 0 && x == ticker_of(ps[k]),
            )) by {
                assert forall|x: Seq<char>|
                    (exists|k: int|
                        0 <= k < i + 1 && trim(#[trigger] ps[k]).len() > 0 && x == ticker_of(
                            ps[k],
                        )) implies before.contains(x) by {
                    let k = choose|k: int|
                        0 <= k < i + 1 && trim(#[trigger] ps[k]).len() > 0 && x == ticker_of(ps[k]);
                    assert(k < i);
                }
            }
        }
        i += 1;
    }
    assert(csv_tickers(raw@) =~= char_views(set@).to_set());
    strings_of(&set)
}

/// Every ticker of a comma-separated list is non-empty, upper case,
/// trimmed (no white space at either end) and free of commas.
pub proof fn lemma_csv_tickers_normalized(raw: Seq<char>)
    ensures
        forall|t: Seq<char>|
            #[trigger] csv_tickers(raw).contains(t) ==> t.len() > 0 && is_upper(t) && !t.contains(
                ',',
            ) && !is_ws(t[0]) && !is_ws(t.last()),
{
    lemma_split_pieces(raw, ',');
    assert forall|t: Seq<char>| #[trigger] csv_tickers(raw).contains(t) implies t.len() > 0
        && is_upper(t) && !t.contains(',') && !is_ws(t[0]) && !is_ws(t.last()) by {
        let i = choose|i: int|
            0 <= i < split_on(raw, ',').len() && trim(#[trigger] split_on(raw, ',')[i]).len() > 0
                && t == ticker_of(split_on(raw, ',')[i]);
        let p = split_on(raw, ',')[i];
        let m = trim(p);
        lemma_upper_is_upper(m);
        lemma_trim_props(p);
        lemma_upcase_keeps(m[0]);
        lemma_upcase_keeps(m.last());
        assert(t[0] == upcase(m[0]));
        assert(t.last() == upcase(m.last()));
        if t.contains(',') {
            let k = choose|k: int| 0 <= k < t.len() && t[k] == ',';
            lemma_upcase_keeps(m[k]);
            assert(m.contains(m[k]));
            assert(p.contains(','));
        }
    }
}

/// A normalised ticker list: whatever the input text, the list that
/// `parse_tickers_csv` returns is sorted, holds no duplicate and no empty
/// entry, and each entry is upper case, trimmed and free of commas.
pub proof fn lemma_parsed_list_is_normalized(raw: Seq<char>, v: Seq<Seq<char>>)
    requires
        lists_sorted(v, csv_tickers(raw)),
    ensures
        strictly_sorted(v),
        forall|i: int, j: int| 0 <= i < j < v.len() ==> #[trigger] v[i] != #[trigger] v[j],
        forall|i: int|
            0 <= i < v.len() ==> (#[trigger] v[i]).len() > 0 && is_upper(v[i]) && !v[i].contains(
                ',',
            ) && !is_ws(v[i][0]) && !is_ws(v[i].last()),
{
    lemma_csv_tickers_normalized(raw);
    assert forall|i: int, j: int| 0 <= i < j < v.len() implies #[trigger] v[i] != #[trigger] v[j] by {
        lemma_lex_lt_irreflexive(v[i]);
    }
    assert forall|i: int| 0 <= i < v.len() implies (#[trigger] v[i]).len() > 0 && is_upper(v[i])
        && !v[i].contains(',') && !is_ws(v[i][0]) && !is_ws(v[i].last()) by {
        assert(v.to_set().contains(v[i]));
    }
}

/// The normalised ticker of `line`, as `line_ticker` gives it.
fn line_ticker_chars(line: &Vec<char>) -> (r: Option<Vec<char>>)
    ensures
        r matches Some(t) ==> line_ticker(line@) == Some(t@),
        r is None <==> line_ticker(line@) is None,
{
    let s = trim_chars(line);
    if s.len() == 0 || s[0] == '#' {
        return None;
    }
    let parts = split_chars(&s, '#');
    proof {
        lemma_split_on_nonempty(s@, '#');
    }
    assert(parts@[0]@ == split_on(s@, '#')[0]);
    let t = trim_chars(&parts[0]);
    if t.len() == 0 {
        return None;
    }
    Some(upper_chars(&t))
}

/// Normalises one line of a ticker file: text after `#` is a comment, the
/// rest is trimmed and upper-cased; blank and comment-only lines give none.
pub fn normalize_line(line: &str) -> (r: Option<String>)
    ensures
        r matches Some(t) ==> line_ticker(line@) == Some(t@),
        r is None <==> line_ticker(line@) is None,
{
    let chars = chars_of(line);
    match line_ticker_chars(&chars) {
        Some(t) => Some(string_of(&t)),
        None => None,
    }
}

/// Parses the text of a ticker file, one ticker per line with `#`
/// comments: the tickers sorted and without duplicates.
pub fn parse_ticker_lines(text: &str) -> (r: Vec<String>)
    ensures
        lists_sorted(views(r@), file_tickers(text@)),
{
    let chars = chars_of(text);
    let lines = split_chars(&chars, '\n');
    let ghost ls = split_on(text@, '\n');
    let mut set: Vec<Vec<char>> = Vec::new();
    let mut i: usize = 0;
    while i < lines.len()
        invariant
            i <= lines.len(),
            char_views(lines@) == ls,
            strictly_sorted(char_views(set@)),
            char_views(set@).to_set() == Set::new(
                |t: Seq<char>| exists|k: int| 0 <= k < i && line_ticker(#[trigger] ls[k]) == Some(t),
            ),
        decreases lines.len() - i,
    {
        let ghost before = char_views(set@).to_set();
        assert(lines@[i as int]@ == ls[i as int]);
        match line_ticker_chars(&lines[i]) {
            Some(u) => {
                let ghost uv = u@;
                insert_sorted(&mut set, u);
                assert(char_views(set@).to_set() =~= Set::new(
                    |x: Seq<char>|
                        exists|k: int| 0 <= k < i + 1 && line_ticker(#[trigger] ls[k]) == Some(x),
                )) by {
                    assert forall|x: Seq<char>|
                        #![trigger before.contains(x)]
                        before.insert(uv).contains(x) implies exists|k: int|
                        0 <= k < i + 1 && line_ticker(#[trigger] ls[k]) == Some(x) by {
                        if x == uv {
                            assert(line_ticker(ls[i as int]) == Some(x));
                        }
                    }
                    assert forall|x: Seq<char>|
                        (exists|k: int|
                            0 <= k < i + 1 && line_ticker(#[trigger] ls[k]) == Some(
                                x,
                            )) implies before.insert(uv).contains(x) by {
                        let k = choose|k: int|
                            0 <= k < i + 1 && line_ticker(#[trigger] ls[k]) == Some(x);
                        if k < i {
                            assert(before.contains(x));
                        }
                    }
                }
            },
            None => {
                assert(char_views(set@).to_set() =~= Set::new(
                    |x: Seq<char>|
                        exists|k: int| 0 <= k < i + 1 && line_ticker(#[trigger] ls[k]) == Some(x),
                )) by {
                    assert forall|x: Seq<char>|
                        (exists|k: int|
                            0 <= k < i + 1 && line_ticker(#[trigger] ls[k]) == Some(
                                x,
                            )) implies before.contains(x) by {
                        let k = choose|k: int|
                            0 <= k < i + 1 && line_ticker(#[trigger] ls[k]) == Some(x);
                        assert(k < i);
                    }
                }
            },
        }
        i += 1;
    }
    assert(file_tickers(text@) =~= char_views(set@).to_set());
    strings_of(&set)
}

/// The tickers of a `--tickers` argument, as a comma-separated list; an
/// error when it names none.
pub fn load_from_arg(raw: &str) -> (r: Result<Vec<String>, TickersError>)
    ensures
        csv_tickers(raw@).is_empty() <==> r is Err,
        r matches Ok(v) ==> lists_sorted(views(v@), csv_tickers(raw@)),
        r matches Err(e) ==> e matches TickersError::EmptyFromArg { raw: s } && s@ == raw@,
{
    let tickers = parse_tickers_csv(raw);
    if tickers.len() == 0 {
        assert(views(tickers@).to_set() =~= Set::empty());
        return Err(TickersError::EmptyFromArg { raw: raw.to_string() });
    }
    assert(views(tickers@).to_set().contains(views(tickers@)[0]));
    Ok(tickers)
}

/// The tickers of a ticker file, given the path it was read from and its
/// text; an error when it names none.
pub fn load_from_file(path: &str, text: &str) -> (r: Result<Vec<String>, TickersError>)
    ensures
        file_tickers(text@).is_empty() <==> r is Err,
        r matches Ok(v) ==> lists_sorted(views(v@), file_tickers(text@)),
        r matches Err(e) ==> e matches TickersError::EmptyFromFile { path: p } && p@ == path@,
{
    let tickers = parse_ticker_lines(text);
    if tickers.len() == 0 {
        assert(views(tickers@).to_set() =~= Set::empty());
        return Err(TickersError::EmptyFromFile { path: path.to_string() });
    }
    assert(views(tickers@).to_set().contains(views(tickers@)[0]));
    Ok(tickers)
}

/// The tickers that a ticker text names: after trimming, a text holding a
/// newline or a `#` is read line by line, any other as a comma-separated
/// list.
pub open spec fn text_tickers(raw: Seq<char>) -> Set<Seq<char>> {
    let t = trim(raw);
    if t.contains('\n') || t.contains('#') {
        file_tickers(t)
    } else {
        csv_tickers(t)
    }
}

/// Whether `c` occurs in `s`.
fn has_char(s: &Vec<char>, c: char) -> (r: bool)
    ensures
        r == s@.contains(c),
{
    let mut i: usize = 0;
    while i < s.len()
        invariant
            i <= s.len(),
            forall|k: int| 0 <= k < i ==> s@[k] != c,
        decreases s.len() - i,
    {
        if s[i] == c {
            return true;
        }
        i += 1;
    }
    false
}

/// The tickers of a ticker text given on the command line, in either form
/// (see `text_tickers`); an error when the text is blank or names none.
pub fn load_from_text(raw: &str) -> (r: Result<Vec<String>, TickersError>)
    ensures
        text_tickers(raw@).is_empty() <==> r is Err,
        r matches Ok(v) ==> lists_sorted(views(v@), text_tickers(raw@)),
        r matches Err(e) ==> e matches TickersError::EmptyFromArg { raw: s } && s@ == raw@,
{
    let chars = chars_of(raw);
    let t = trim_chars(&chars);
    let text = string_of(&t);
    let tickers = if has_char(&t, '\n') || has_char(&t, '#') {
        parse_ticker_lines(text.as_str())
    } else {
        parse_tickers_csv(text.as_str())
    };
    if tickers.len() == 0 {
        assert(views(tickers@).to_set() =~= Set::empty());
        return Err(TickersError::EmptyFromArg { raw: raw.to_string() });
    }
    assert(views(tickers@).to_set().contains(views(tickers@)[0]));
    Ok(tickers)
}

} // verus!
