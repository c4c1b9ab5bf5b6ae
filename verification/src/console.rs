//! Console completion helpers: quoting and unquoting of shell-like words,
//! and prefix filtering of completion candidates.

use vstd::prelude::*;

use crate::text::{chars_le, push_char, starts_with_spec, str_le, str_starts_with};

verus! {

/// How one character is written when escaping: backslashes and quotes gain
/// a backslash, and so does a space when spaces must be escaped.
pub open spec fn esc_char(c: char, escape_space: bool) -> Seq<char> {
    if c == '\\' {
        seq!['\\', '\\']
    } else if c == '"' {
        seq!['\\', '"']
    } else if c == ' ' && escape_space {
        seq!['\\', ' ']
    } else {
        seq![c]
    }
}

/// A text with every character escaped as needed.
pub open spec fn spec_escape(s: Seq<char>, escape_space: bool) -> Seq<char>
    decreases s.len(),
{
    if s.len() == 0 {
        Seq::empty()
    } else {
        spec_escape(s.drop_last(), escape_space) + esc_char(s.last(), escape_space)
    }
}

/// Whether a text needs quoting: it holds a space, quote or backslash.
pub open spec fn spec_needs_quoting(s: Seq<char>) -> bool {
    exists|j: int| 0 <= j < s.len() && (s[j] == ' ' || s[j] == '"' || s[j] == '\\')
}

/// A completion candidate written back into the input: inside an open
/// quote it is quoted whole; a bare word that needs it gets backslashes;
/// otherwise it stands as it is.
pub open spec fn spec_quote(s: Seq<char>, delimiters: Seq<char>) -> Seq<char> {
    if delimiters == seq!['"'] {
        seq!['"'] + spec_escape(s, false) + seq!['"']
    } else if spec_needs_quoting(s) {
        spec_escape(s, true)
    } else {
        s
    }
}

/// Escape a text for writing back into the input.
fn escape(input: &str, escape_space: bool) -> (r: String)
    ensures
        r@ == spec_escape(input@, escape_space),
{
    let len = input.unicode_len();
    let mut out = String::new();
    let mut i: usize = 0;
    proof {
        assert(input@.take(0) =~= Seq::<char>::empty());
    }
    while i < len
        invariant
            0 <= i <= len,
            len == input@.len(),
            out@ == spec_escape(input@.take(i as int), escape_space),
        decreases len - i,
    {
        let c = input.get_char(i);
        if c == '\\' {
            push_char(&mut out, '\\');
            push_char(&mut out, '\\');
        } else if c == '"' {
            push_char(&mut out, '\\');
            push_char(&mut out, '"');
        } else if c == ' ' && escape_space {
            push_char(&mut out, '\\');
            push_char(&mut out, ' ');
        } else {
            push_char(&mut out, c);
        }
        proof {
            assert(input@.take(i + 1).drop_last() =~= input@.take(i as int));
            assert(input@.take(i + 1).last() == input@[i as int]);
            assert(out@ =~= spec_escape(input@.take(i as int), escape_space) + esc_char(
                input@[i as int],
                escape_space,
            ));
        }
        i = i + 1;
    }
    proof {
        assert(input@.take(len as int) =~= input@);
    }
    out
}

/// Quote a completion candidate for the word being completed: quoted whole
/// inside an open quote, backslash-escaped when it holds a space, quote or
/// backslash, untouched otherwise.
pub fn quote(input: &str, existing_delimiters: String) -> (r: String)
    ensures
        r@ == spec_quote(input@, existing_delimiters@),
{
    let is_quote_delim = existing_delimiters.as_str().unicode_len() == 1
        && existing_delimiters.as_str().get_char(0) == '"';
    proof {
        if is_quote_delim {
            assert(existing_delimiters@ =~= seq!['"']);
        } else {
            assert(existing_delimiters@ != seq!['"']) by {
                if existing_delimiters@ == seq!['"'] {
                    assert(existing_delimiters@.len() == 1);
                    assert(existing_delimiters@[0] == '"');
                }
            }
        }
    }
    if is_quote_delim {
        let mut out = String::new();
        push_char(&mut out, '"');
        let body = escape(input, false);
        out.append(body.as_str());
        push_char(&mut out, '"');
        proof {
            assert(out@ =~= seq!['"'] + spec_escape(input@, false) + seq!['"']);
        }
        return out;
    }
    let len = input.unicode_len();
    let mut needs = false;
    let mut i: usize = 0;
    while i < len
        invariant
            0 <= i <= len,
            len == input@.len(),
            needs ==> spec_needs_quoting(input@),
            !needs ==> forall|j: int|
                0 <= j < i ==> !((#[trigger] input@[j]) == ' ' || input@[j] == '"' || input@[j]
                    == '\\'),
        decreases len - i,
    {
        let c = input.get_char(i);
        if c == ' ' || c == '"' || c == '\\' {
            needs = true;
        }
        i = i + 1;
    }
    if needs {
        escape(input, true)
    } else {
        proof {
            assert(!spec_needs_quoting(input@));
        }
        input.to_owned()
    }
}

/// A quoted or escaped word read back: a backslash takes the next
/// character as it stands (and is dropped at the very end), bare quotes
/// vanish.
pub open spec fn spec_unquote(s: Seq<char>) -> Seq<char>
    decreases s.len(),
{
    if s.len() == 0 {
        Seq::empty()
    } else if s[0] == '\\' {
        if s.len() == 1 {
            Seq::empty()
        } else {
            seq![s[1]] + spec_unquote(s.skip(2))
        }
    } else if s[0] == '"' {
        spec_unquote(s.skip(1))
    } else {
        seq![s[0]] + spec_unquote(s.skip(1))
    }
}

/// Strip quoting from a word: backslashes take the next character
/// verbatim, bare quotes vanish.
pub fn unquote(input: &str) -> (r: String)
    ensures
        r@ == spec_unquote(input@),
{
    let len = input.unicode_len();
    let mut out = String::new();
    let mut i: usize = 0;
    proof {
        assert(input@.skip(0) =~= input@);
    }
    while i < len
        invariant
            0 <= i <= len,
            len == input@.len(),
            spec_unquote(input@) == out@ + spec_unquote(input@.skip(i as int)),
        decreases len - i,
    {
        let c = input.get_char(i);
        proof {
            assert(input@.skip(i as int)[0] == input@[i as int]);
        }
        if c == '\\' {
            if i + 1 < len {
                let d = input.get_char(i + 1);
                push_char(&mut out, d);
                proof {
                    assert(input@.skip(i as int)[1] == input@[i + 1]);
                    assert(input@.skip(i as int).skip(2) =~= input@.skip(i + 2));
                    assert(out@ + spec_unquote(input@.skip(i + 2)) =~= spec_unquote(input@));
                }
                i = i + 2;
            } else {
                proof {
                    assert(input@.skip(i as int).len() == 1);
                    assert(out@ + spec_unquote(input@.skip(len as int)) =~= out@);
                    assert(spec_unquote(input@.skip(i as int)) =~= Seq::<char>::empty());
                    assert(out@ + spec_unquote(input@.skip(i as int)) =~= out@);
                }
                i = len;
            }
        } else if c == '"' {
            proof {
                assert(input@.skip(i as int).skip(1) =~= input@.skip(i + 1));
            }
            i = i + 1;
        } else {
            push_char(&mut out, c);
            proof {
                assert(input@.skip(i as int).skip(1) =~= input@.skip(i + 1));
                assert(out@ + spec_unquote(input@.skip(i + 1)) =~= spec_unquote(input@));
            }
            i = i + 1;
        }
    }
    proof {
        assert(input@.skip(len as int).len() == 0);
        assert(out@ + spec_unquote(input@.skip(len as int)) =~= out@);
    }
    out
}

/// One word of console input: where it starts, its unquoted contents, and
/// the delimiters it was written with.
#[derive(Clone, Debug, PartialEq, Eq)]
pub struct InputWord {
    pub pos: usize,
    pub word: String,
    pub delimiters: String,
}

/// Stable insertion of a text into a list sorted lexicographically.
pub open spec fn spec_insert_sorted_chars(e: Seq<char>, s: Seq<Seq<char>>) -> Seq<Seq<char>>
    decreases s.len(),
{
    if s.len() == 0 {
        seq![e]
    } else if chars_le(s[0], e) {
        seq![s[0]] + spec_insert_sorted_chars(e, s.skip(1))
    } else {
        seq![e] + s
    }
}

/// The stable lexicographic sort of a list of texts.
pub open spec fn spec_sort_chars(s: Seq<Seq<char>>) -> Seq<Seq<char>>
    decreases s.len(),
{
    if s.len() == 0 {
        Seq::empty()
    } else {
        spec_insert_sorted_chars(s.last(), spec_sort_chars(s.drop_last()))
    }
}

proof fn lemma_insert_sorted_chars_at(e: Seq<char>, s: Seq<Seq<char>>, p: int)
    requires
        0 <= p <= s.len(),
        forall|j: int| 0 <= j < p ==> chars_le(#[trigger] s[j], e),
        p < s.len() ==> !chars_le(s[p], e),
    ensures
        spec_insert_sorted_chars(e, s) == s.take(p) + seq![e] + s.skip(p),
    decreases s.len(),
{
    if s.len() == 0 {
        assert(spec_insert_sorted_chars(e, s) =~= s.take(p) + seq![e] + s.skip(p));
    } else if p == 0 {
        assert(s.take(0) =~= Seq::<Seq<char>>::empty());
        assert(s.skip(0) =~= s);
        assert(spec_insert_sorted_chars(e, s) =~= s.take(0) + seq![e] + s.skip(0));
    } else {
        lemma_insert_sorted_chars_at(e, s.skip(1), p - 1);
        assert(s.skip(1).take(p - 1) =~= s.take(p).skip(1));
        assert(s.skip(1).skip(p - 1) =~= s.skip(p));
        assert(seq![s[0]] + (s.skip(1).take(p - 1) + seq![e] + s.skip(1).skip(p - 1)) =~= s.take(p)
            + seq![e] + s.skip(p));
    }
}

/// The views of a list of owned strings.
pub open spec fn str_views(v: Seq<String>) -> Seq<Seq<char>> {
    v.map_values(|s: String| s@)
}

/// The candidates offered for a word: those the word begins, quoted for
/// writing back, in lexicographic order.
pub open spec fn spec_candidates(
    cands: Seq<Seq<char>>,
    word: Seq<char>,
    delimiters: Seq<char>,
) -> Seq<Seq<char>> {
    spec_sort_chars(
        cands.filter(|c: Seq<char>| starts_with_spec(c, word)).map_values(
            |c: Seq<char>| spec_quote(c, delimiters),
        ),
    )
}

/// Keep the candidates the current word begins, quote each for the way the
/// word was written, and sort them.
pub fn filter_and_format_candidates(candidates: Vec<String>, input: &InputWord) -> (r: Vec<String>)
    ensures
        str_views(r@) == spec_candidates(str_views(candidates@), input.word@, input.delimiters@),
{
    let ghost cand_views = str_views(candidates@);
    let ghost pred = |c: Seq<char>| starts_with_spec(c, input.word@);
    let ghost quoter = |c: Seq<char>| spec_quote(c, input.delimiters@);
    let mut picked: Vec<String> = Vec::new();
    let mut candidates = candidates;
    let ghost mut i: int = 0;
    proof {
        assert(cand_views.take(0) =~= Seq::<Seq<char>>::empty());
        assert(candidates@.skip(0) =~= candidates@);
    }
    while candidates.len() > 0
        invariant
            0 <= i <= cand_views.len(),
            str_views(candidates@) =~= cand_views.skip(i),
            pred == |c: Seq<char>| starts_with_spec(c, input.word@),
            quoter == |c: Seq<char>| spec_quote(c, input.delimiters@),
            str_views(picked@) == cand_views.take(i).filter(pred).map_values(quoter),
        decreases candidates@.len(),
    {
        let c = candidates.remove(0);
        proof {
            assert(str_views(candidates@) =~= cand_views.skip(i).skip(1));
            assert(cand_views.skip(i).skip(1) =~= cand_views.skip(i + 1));
            assert(cand_views.skip(i)[0] == cand_views[i]);
            assert(c@ == cand_views[i]);
        }
        let keep = str_starts_with(c.as_str(), input.word.as_str());
        let ghost before_views = str_views(picked@);
        if keep {
            let q = quote(c.as_str(), crate::text::clone_string(&input.delimiters));
            picked.push(q);
        }
        proof {
            assert(cand_views.take(i + 1) =~= cand_views.take(i).push(cand_views[i]));
            crate::projection::lemma_filter_push(cand_views.take(i), cand_views[i], pred);
            if keep {
                assert(str_views(picked@) =~= before_views.push(quoter(cand_views[i])));
                assert(cand_views.take(i + 1).filter(pred).map_values(quoter) =~= cand_views.take(
                    i,
                ).filter(pred).map_values(quoter).push(quoter(cand_views[i])));
            }
            assert(str_views(picked@) =~= cand_views.take(i + 1).filter(pred).map_values(quoter));
            i = i + 1;
        }
    }
    proof {
        assert(cand_views.take(cand_views.len() as int) =~= cand_views);
    }
    // Sort the quoted candidates lexicographically.
    let ghost picked0 = str_views(picked@);
    let mut out: Vec<String> = Vec::new();
    let mut picked = picked;
    let ghost mut t: int = 0;
    proof {
        assert(picked0.take(0) =~= Seq::<Seq<char>>::empty());
        assert(str_views(picked@) =~= picked0.skip(0));
    }
    while picked.len() > 0
        invariant
            0 <= t <= picked0.len(),
            str_views(picked@) =~= picked0.skip(t),
            str_views(out@) == spec_sort_chars(picked0.take(t)),
        decreases picked@.len(),
    {
        let e = picked.remove(0);
        proof {
            assert(str_views(picked@) =~= picked0.skip(t).skip(1));
            assert(picked0.skip(t).skip(1) =~= picked0.skip(t + 1));
            assert(picked0.skip(t)[0] == picked0[t]);
            assert(e@ == picked0[t]);
        }
        let mut p: usize = 0;
        while p < out.len() && str_le(out[p].as_str(), e.as_str())
            invariant
                0 <= p <= out@.len(),
                forall|j: int| 0 <= j < p ==> chars_le((#[trigger] out@[j])@, e@),
            decreases out@.len() - p,
        {
            p = p + 1;
        }
        proof {
            assert forall|j: int| 0 <= j < p implies chars_le(
                #[trigger] str_views(out@)[j],
                e@,
            ) by {
                assert(str_views(out@)[j] == out@[j]@);
            }
            if (p as int) < out@.len() {
                assert(str_views(out@)[p as int] == out@[p as int]@);
            }
            lemma_insert_sorted_chars_at(e@, str_views(out@), p as int);
        }
        let ghost before = str_views(out@);
        out.insert(p, e);
        proof {
            assert(str_views(out@) =~= before.take(p as int) + seq![e@] + before.skip(p as int));
            assert(picked0.take(t + 1).drop_last() =~= picked0.take(t));
            assert(picked0.take(t + 1).last() == picked0[t]);
            assert(str_views(out@) =~= spec_sort_chars(picked0.take(t + 1)));
            t = t + 1;
        }
    }
    proof {
        assert(picked0.take(picked0.len() as int) =~= picked0);
    }
    out
}


/// Where a quoted run, already inside its quotes at `j`, ends: at the
/// character after the closing quote, or at the end of the text; a
/// backslash-quote pair stays inside the run.
pub open spec fn qrun_end(s: Seq<char>, j: int) -> int
    decreases s.len() - j,
{
    if j < 0 || j >= s.len() {
        s.len() as int
    } else if s[j] == '"' {
        j + 1
    } else if s[j] == '\\' && j + 1 < s.len() && s[j + 1] == '"' {
        qrun_end(s, j + 2)
    } else {
        qrun_end(s, j + 1)
    }
}

proof fn lemma_qrun_end_bounds(s: Seq<char>, j: int)
    requires
        0 <= j <= s.len(),
    ensures
        j < qrun_end(s, j) || (j == s.len() && qrun_end(s, j) == s.len()),
        qrun_end(s, j) <= s.len(),
    decreases s.len() - j,
{
    if j < s.len() && s[j] != '"' {
        if s[j] == '\\' && j + 1 < s.len() && s[j + 1] == '"' {
            lemma_qrun_end_bounds(s, j + 2);
        } else {
            lemma_qrun_end_bounds(s, j + 1);
        }
    }
}

/// Where the word unit starting at `i` ends, and whether it is a quoted
/// run; `None` when no unit starts here (a space, an unopenable quote, or
/// the end of the text).
pub open spec fn unit_end(s: Seq<char>, i: int) -> Option<(int, bool)> {
    if i < 0 || i >= s.len() {
        None
    } else if s[i] == ' ' {
        None
    } else if s[i] == '\\' && i + 1 < s.len() && (s[i + 1] == ' ' || s[i + 1] == '"') {
        Some(((i + 2) as int, false))
    } else if s[i] == '"' {
        if i + 1 < s.len() && s[i + 1] != '"' {
            Some((qrun_end(s, i + 1), true))
        } else {
            None
        }
    } else {
        Some(((i + 1) as int, false))
    }
}

proof fn lemma_unit_end_bounds(s: Seq<char>, i: int)
    requires
        0 <= i <= s.len(),
    ensures
        unit_end(s, i) matches Some(p) ==> i < p.0 <= s.len(),
{
    if 0 <= i < s.len() && s[i] == '"' && i + 1 < s.len() && s[i + 1] != '"' {
        lemma_qrun_end_bounds(s, i + 1);
    }
}

/// Where the word token whose first unit starts at `i` ends, and whether
/// any of its units was a quoted run.
pub open spec fn token_scan(s: Seq<char>, i: int) -> (int, bool)
    decreases s.len() - i,
{
    match unit_end(s, i) {
        None => (i, false),
        Some((e, q)) => {
            if i < e <= s.len() {
                let rest = token_scan(s, e);
                (rest.0, q || rest.1)
            } else {
                (i, q)
            }
        },
    }
}

proof fn lemma_token_scan_bounds(s: Seq<char>, i: int)
    requires
        0 <= i <= s.len(),
    ensures
        i <= token_scan(s, i).0 <= s.len(),
        unit_end(s, i) is Some ==> i < token_scan(s, i).0,
    decreases s.len() - i,
{
    lemma_unit_end_bounds(s, i);
    if unit_end(s, i) is Some {
        let p = unit_end(s, i)->Some_0;
        lemma_token_scan_bounds(s, p.0);
    }
}

/// The word tokens of a console line, in order: each token's start, end,
/// and whether it was quoted. Spaces separate tokens; a quote that cannot
/// open a quoted run is skipped.
pub open spec fn scan_tokens(s: Seq<char>, i: int) -> Seq<(int, int, bool)>
    decreases s.len() - i,
{
    if i < 0 || i >= s.len() {
        Seq::empty()
    } else if unit_end(s, i) is Some {
        let t = token_scan(s, i);
        let e = if i < t.0 <= s.len() {
            t.0
        } else {
            i + 1
        };
        seq![(i, e, t.1)] + scan_tokens(s, e)
    } else {
        scan_tokens(s, i + 1)
    }
}

proof fn lemma_scan_tokens_wf(s: Seq<char>, i: int)
    requires
        0 <= i <= s.len(),
    ensures
        forall|k: int|
            0 <= k < scan_tokens(s, i).len() ==> i <= (#[trigger] scan_tokens(s, i)[k]).0 < scan_tokens(
                s,
                i,
            )[k].1 <= s.len(),
    decreases s.len() - i,
{
    if i < s.len() {
        if unit_end(s, i) is Some {
            lemma_token_scan_bounds(s, i);
            let t = token_scan(s, i);
            lemma_scan_tokens_wf(s, t.0);
            assert forall|k: int|
                0 <= k < scan_tokens(s, i).len() implies i <= (#[trigger] scan_tokens(s, i)[k]).0
                    < scan_tokens(s, i)[k].1 <= s.len() by {
                if k == 0 {
                    assert(scan_tokens(s, i)[0] == (i, t.0, t.1));
                } else {
                    assert(scan_tokens(s, i)[k] == scan_tokens(s, t.0)[k - 1]);
                }
            }
        } else {
            lemma_scan_tokens_wf(s, i + 1);
            assert forall|k: int|
                0 <= k < scan_tokens(s, i).len() implies i <= (#[trigger] scan_tokens(s, i)[k]).0
                    < scan_tokens(s, i)[k].1 <= s.len() by {
                assert(scan_tokens(s, i)[k] == scan_tokens(s, i + 1)[k]);
            }
        }
    }
}

/// The words a cursor position selects from a token list: tokens past the
/// cursor stop the walk; each taken token is cut at the cursor and
/// unquoted; empty words are dropped unless the cursor sits at their start.
pub open spec fn words_of_tokens(s: Seq<char>, toks: Seq<(int, int, bool)>, pos: int) -> Seq<
    (int, Seq<char>, bool),
>
    decreases toks.len(),
{
    if toks.len() == 0 {
        Seq::empty()
    } else if toks[0].0 > pos {
        Seq::empty()
    } else {
        let st = toks[0].0;
        let en = if toks[0].1 < pos {
            toks[0].1
        } else {
            pos
        };
        let w = if 0 <= st <= en <= s.len() {
            spec_unquote(s.subrange(st, en))
        } else {
            Seq::empty()
        };
        let rest = words_of_tokens(s, toks.skip(1), pos);
        if w.len() > 0 || st == pos {
            seq![(st, w, toks[0].2)] + rest
        } else {
            rest
        }
    }
}

/// How far the tokens the cursor has reached extend.
pub open spec fn farthest_of_tokens(toks: Seq<(int, int, bool)>, pos: int) -> int
    decreases toks.len(),
{
    if toks.len() == 0 {
        0
    } else if toks[0].0 > pos {
        0
    } else {
        let rest = farthest_of_tokens(toks.skip(1), pos);
        if toks[0].1 > rest {
            toks[0].1
        } else {
            rest
        }
    }
}

/// The words of a console line up to the cursor: the tokenized words cut
/// at the cursor, with an empty word at the cursor when it sits past
/// everything parsed.
pub open spec fn spec_words(s: Seq<char>, pos: int) -> Seq<(int, Seq<char>, bool)> {
    let toks = scan_tokens(s, 0);
    let ws = words_of_tokens(s, toks, pos);
    if ws.len() == 0 || pos > farthest_of_tokens(toks, pos) {
        ws.push((pos, Seq::empty(), false))
    } else {
        ws
    }
}

/// The view of a collected token triple.
pub open spec fn token_views(v: Seq<(usize, usize, bool)>) -> Seq<(int, int, bool)> {
    v.map_values(|t: (usize, usize, bool)| (t.0 as int, t.1 as int, t.2))
}

/// Where the unit at `i` ends, and whether it is a quoted run.
fn unit_end_exec(s: &str, len: usize, i: usize) -> (r: Option<(usize, bool)>)
    requires
        len == s@.len(),
        i < len,
    ensures
        match r {
            Some(p) => unit_end(s@, i as int) == Some((p.0 as int, p.1)) && i < p.0 <= len,
            None => unit_end(s@, i as int) is None,
        },
{
    let c = s.get_char(i);
    if c == ' ' {
        return None;
    }
    if c == '\\' && i + 1 < len {
        let d = s.get_char(i + 1);
        if d == ' ' || d == '"' {
            return Some((i + 2, false));
        }
    }
    if c == '"' {
        if i + 1 < len && s.get_char(i + 1) != '"' {
            // Scan the quoted run: it closes at a bare quote or the end.
            let mut j = i + 1;
            proof {
                lemma_qrun_end_bounds(s@, i + 1);
            }
            while j < len
                invariant
                    i + 1 <= j <= len,
                    i < len,
                    len == s@.len(),
                    s@[i as int] == '"',
                    i + 1 < len,
                    s@[i + 1] != '"',
                    qrun_end(s@, i + 1) == qrun_end(s@, j as int),
                    i < qrun_end(s@, i + 1) <= len,
                decreases len - j,
            {
                let e = s.get_char(j);
                if e == '"' {
                    proof {
                        assert(qrun_end(s@, j as int) == j + 1);
                    }
                    return Some((j + 1, true));
                }
                if e == '\\' && j + 1 < len && s.get_char(j + 1) == '"' {
                    proof {
                        lemma_qrun_end_bounds(s@, j + 2);
                    }
                    j = j + 2;
                } else {
                    proof {
                        lemma_qrun_end_bounds(s@, j + 1);
                    }
                    j = j + 1;
                }
            }
            proof {
                assert(qrun_end(s@, j as int) == len as int);
            }
            return Some((len, true));
        }
        if c == '"' {
            return None;
        }
    }
    Some((i + 1, false))
}

/// Split a console line into words up to the cursor: words cut at the
/// cursor and unquoted, each with its start and its original delimiter,
/// and an empty word at the cursor when it sits past everything parsed.
pub fn words_up_to_cursor_pos(input: &str, pos: usize) -> (r: Vec<InputWord>)
    ensures
        ({
            let ws = spec_words(input@, pos as int);
            &&& r@.len() == ws.len()
            &&& forall|j: int|
                0 <= j < ws.len() ==> (#[trigger] r@[j]).pos == ws[j].0 && r@[j].word@ == ws[j].1
                    && r@[j].delimiters@ == (if ws[j].2 {
                    seq!['"']
                } else {
                    Seq::<char>::empty()
                })
        }),
{
    let len = input.unicode_len();
    // Tokenize the whole line.
    let mut toks: Vec<(usize, usize, bool)> = Vec::new();
    let mut i: usize = 0;
    proof {
        assert(token_views(toks@) + scan_tokens(input@, 0) =~= scan_tokens(input@, 0));
    }
    while i < len
        invariant
            0 <= i <= len,
            len == input@.len(),
            scan_tokens(input@, 0) == token_views(toks@) + scan_tokens(input@, i as int),
            forall|k: int|
                0 <= k < toks@.len() ==> (#[trigger] toks@[k]).0 < toks@[k].1 && toks@[k].1 <= len,
        decreases len - i,
    {
        match unit_end_exec(input, len, i) {
            None => {
                proof {
                    assert(scan_tokens(input@, i as int) == scan_tokens(input@, i + 1));
                }
                i = i + 1;
            },
            Some((first_end, first_q)) => {
                // Extend the token with further units.
                let start = i;
                let mut cur = first_end;
                let mut quoted = first_q;
                let mut ended = false;
                proof {
                    lemma_token_scan_bounds(input@, i as int);
                }
                while !ended && cur < len
                    invariant
                        0 <= start < cur <= len,
                        len == input@.len(),
                        token_scan(input@, start as int).0 == token_scan(input@, cur as int).0,
                        token_scan(input@, start as int).1 == (quoted || token_scan(
                            input@,
                            cur as int,
                        ).1),
                        token_scan(input@, start as int).0 <= len,
                        ended ==> unit_end(input@, cur as int) is None,
                    decreases len - cur, if ended { 0int } else { 1int },
                {
                    match unit_end_exec(input, len, cur) {
                        None => {
                            ended = true;
                        },
                        Some((e, q)) => {
                            cur = e;
                            quoted = quoted || q;
                        },
                    }
                }
                proof {
                    assert(unit_end(input@, cur as int) is None);
                    assert(token_scan(input@, cur as int) == (cur as int, false));
                    assert(token_scan(input@, start as int).0 == cur as int);
                    assert(token_scan(input@, start as int).1 == quoted);
                }
                let ghost before = token_views(toks@);
                toks.push((start, cur, quoted));
                proof {
                    assert(token_views(toks@) =~= before.push((start as int, cur as int, quoted)));
                    assert(scan_tokens(input@, start as int) =~= seq![
                        (start as int, cur as int, quoted),
                    ] + scan_tokens(input@, cur as int));
                    assert(token_views(toks@) + scan_tokens(input@, cur as int) =~= before + (seq![
                        (start as int, cur as int, quoted),
                    ] + scan_tokens(input@, cur as int)));
                }
                i = cur;
            },
        }
    }
    proof {
        assert(scan_tokens(input@, len as int) =~= Seq::<(int, int, bool)>::empty());
        assert(token_views(toks@) + Seq::<(int, int, bool)>::empty() =~= token_views(toks@));
        assert(scan_tokens(input@, 0) == token_views(toks@));
    }
    let ghost all_toks = token_views(toks@);

    // Walk the tokens the cursor has reached, cutting and unquoting each.
    let mut result: Vec<InputWord> = Vec::new();
    let ghost mut gw: Seq<(int, Seq<char>, bool)> = Seq::empty();
    let mut farthest: usize = 0;
    let mut k: usize = 0;
    let mut stopped = false;
    proof {
        assert(all_toks.skip(0) =~= all_toks);
        assert(gw + words_of_tokens(input@, all_toks, pos as int) =~= words_of_tokens(
            input@,
            all_toks,
            pos as int,
        ));
    }
    while !stopped && k < toks.len()
        invariant
            0 <= k <= toks@.len(),
            len == input@.len(),
            all_toks == token_views(toks@),
            forall|m: int|
                0 <= m < toks@.len() ==> (#[trigger] toks@[m]).0 < toks@[m].1 && toks@[m].1 <= len,
            words_of_tokens(input@, all_toks, pos as int) == gw + words_of_tokens(
                input@,
                all_toks.skip(k as int),
                pos as int,
            ),
            gw.len() == result@.len(),
            forall|j: int|
                0 <= j < gw.len() ==> (#[trigger] result@[j]).pos == gw[j].0 && result@[j].word@
                    == gw[j].1 && result@[j].delimiters@ == (if gw[j].2 {
                    seq!['"']
                } else {
                    Seq::<char>::empty()
                }),
            farthest_of_tokens(all_toks, pos as int) == ({
                let rest = farthest_of_tokens(all_toks.skip(k as int), pos as int);
                if farthest > rest {
                    farthest as int
                } else {
                    rest
                }
            }),
            farthest <= len,
            stopped ==> k < toks@.len() && all_toks[k as int].0 > pos,
        decreases toks@.len() - k, if stopped { 0int } else { 1int },
    {
        let (st, en, q) = toks[k];
        proof {
            assert(all_toks.skip(k as int)[0] == all_toks[k as int]);
            assert(all_toks[k as int] == (st as int, en as int, q));
            assert(all_toks.skip(k as int).skip(1) =~= all_toks.skip(k + 1));
        }
        if st > pos {
            stopped = true;
        } else {
            if en > farthest {
                farthest = en;
            }
            let cut = if en < pos {
                en
            } else {
                pos
            };
            let piece = input.substring_char(st, cut);
            let word = unquote(piece);
            proof {
                assert(piece@ == input@.subrange(st as int, cut as int));
            }
            let keep = word.as_str().unicode_len() > 0 || st == pos;
            if keep {
                let ghost w_view = word@;
                let delimiters = if q {
                    let mut d = String::new();
                    push_char(&mut d, '"');
                    proof {
                        assert(d@ =~= seq!['"']);
                    }
                    d
                } else {
                    String::new()
                };
                result.push(InputWord { pos: st, word, delimiters });
                proof {
                    gw = gw.push((st as int, w_view, q));
                }
            }
            proof {
                let ws_old = words_of_tokens(input@, all_toks.skip(k as int), pos as int);
                let ws_new = words_of_tokens(input@, all_toks.skip(k + 1), pos as int);
                if keep {
                    assert(ws_old =~= seq![gw.last()] + ws_new);
                    assert(gw.drop_last() + ws_old =~= gw + ws_new);
                } else {
                    assert(ws_old =~= ws_new);
                }
            }
            k = k + 1;
        }
    }
    proof {
        assert(words_of_tokens(input@, all_toks.skip(k as int), pos as int) =~= Seq::<
            (int, Seq<char>, bool),
        >::empty()) by {
            if !stopped {
                assert(all_toks.skip(k as int) =~= Seq::<(int, int, bool)>::empty());
            }
        }
        assert(farthest_of_tokens(all_toks.skip(k as int), pos as int) == 0) by {
            if !stopped {
                assert(all_toks.skip(k as int) =~= Seq::<(int, int, bool)>::empty());
            }
        }
        assert(words_of_tokens(input@, all_toks, pos as int) =~= gw);
        assert(farthest_of_tokens(all_toks, pos as int) == farthest as int);
    }

    let need_tail = result.len() == 0 || pos > farthest;
    if need_tail {
        result.push(
            InputWord { pos, word: String::new(), delimiters: String::new() },
        );
        proof {
            gw = gw.push((pos as int, Seq::empty(), false));
        }
    }
    proof {
        assert(spec_words(input@, pos as int) == gw);
    }
    result
}

} // verus!
