//! Search-term preparation and result highlighting.

use vstd::prelude::*;

use crate::model::UserId;

verus! {

/// One matching log line.
pub struct SearchResult {
    /// Who sent the matching message.
    pub user_id: UserId,
    /// The matching line's lowercased text.
    pub full_text: String,
}

/// What `str::to_lowercase` returns: a function of the characters alone.
pub uninterp spec fn lower_of(s: Seq<char>) -> Seq<char>;

/// Relies on `str::to_lowercase`: the lowercase equivalent of the string,
/// depending on its characters alone; an empty string stays empty.
#[verifier::external_body]
fn lowercase(s: &str) -> (r: String)
    ensures
        r@ == lower_of(s@),
        s@.len() == 0 ==> r@.len() == 0,
{
    s.to_lowercase()
}

/// The characters `str::split_whitespace` splits on.
pub open spec fn is_uws(c: char) -> bool {
    c == ' ' || c == '\u{9}' || c == '\u{a}' || c == '\u{b}' || c == '\u{c}' || c == '\u{d}'
        || c == '\u{85}' || c == '\u{a0}' || c == '\u{1680}' || ('\u{2000}' <= c && c
        <= '\u{200a}') || c == '\u{2028}' || c == '\u{2029}' || c == '\u{202f}' || c == '\u{205f}'
        || c == '\u{3000}'
}

/// Executable test for [`is_uws`].
fn is_uws_exec(c: char) -> (r: bool)
    ensures
        r == is_uws(c),
{
    c == ' ' || c == '\u{9}' || c == '\u{a}' || c == '\u{b}' || c == '\u{c}' || c == '\u{d}'
        || c == '\u{85}' || c == '\u{a0}' || c == '\u{1680}' || ('\u{2000}' <= c && c
        <= '\u{200a}') || c == '\u{2028}' || c == '\u{2029}' || c == '\u{202f}' || c == '\u{205f}'
        || c == '\u{3000}'
}

/// The splitter's running state: the pending word and the words emitted.
pub ghost struct SplitSt {
    /// Characters of the word being accumulated.
    pub cur: Seq<char>,
    /// The complete words found so far.
    pub words: Seq<Seq<char>>,
}

/// One splitting step on the next character.
pub open spec fn split_step(st: SplitSt, c: char) -> SplitSt {
    if is_uws(c) {
        if st.cur.len() > 0 {
            SplitSt { cur: Seq::empty(), words: st.words.push(st.cur) }
        } else {
            st
        }
    } else {
        SplitSt { cur: st.cur.push(c), words: st.words }
    }
}

/// The splitter's state after the first `i` characters.
pub open spec fn split_run(s: Seq<char>, i: int) -> SplitSt
    decreases i,
{
    if i <= 0 {
        SplitSt { cur: Seq::empty(), words: Seq::empty() }
    } else {
        split_step(split_run(s, i - 1), s[i - 1])
    }
}

/// The whitespace-separated words of a string, in order.
pub open spec fn split_words(s: Seq<char>) -> Seq<Seq<char>> {
    let st = split_run(s, s.len() as int);
    if st.cur.len() > 0 {
        st.words.push(st.cur)
    } else {
        st.words
    }
}

/// The views of a sequence of strings.
pub open spec fn strings_view(s: Seq<String>) -> Seq<Seq<char>> {
    s.map_values(|t: String| t@)
}

/// The search terms of a query: the whitespace-separated words of its
/// lowercased text.
pub fn terms_for_search(text: &str) -> (terms: Vec<String>)
    ensures
        strings_view(terms@) == split_words(lower_of(text@)),
{
    broadcast use vstd::prelude::Seq::lemma_push_map_commute;

    let lowered = lowercase(text);
    let ghost ls = lowered@;
    let n = lowered.as_str().unicode_len();
    let mut terms: Vec<String> = Vec::new();
    let mut cur = String::new();
    let mut i: usize = 0;
    proof {
        assert(strings_view(terms@) =~= split_run(ls, 0).words);
        assert(cur@ =~= split_run(ls, 0).cur);
    }
    while i < n
        invariant
            n == ls.len(),
            ls == lowered@,
            i <= n,
            cur@ == split_run(ls, i as int).cur,
            strings_view(terms@) == split_run(ls, i as int).words,
        decreases n - i,
    {
        let ghost st = split_run(ls, i as int);
        let c = lowered.as_str().get_char(i);
        if is_uws_exec(c) {
            if !cur.as_str().is_empty() {
                terms.push(cur);
                cur = String::new();
                proof {
                    assert(strings_view(terms@) =~= st.words.push(st.cur));
                }
            }
        } else {
            crate::text::push_char(&mut cur, c);
        }
        i += 1;
        proof {
            assert(split_run(ls, i as int) == split_step(st, ls[i - 1]));
        }
    }
    if !cur.as_str().is_empty() {
        terms.push(cur);
        proof {
            assert(strings_view(terms@) =~= split_words(ls));
        }
    }
    proof {
        assert(strings_view(terms@) =~= split_words(ls));
    }
    terms
}

/// What replacing every left-to-right, non-overlapping occurrence of a
/// non-empty pattern leaves behind.
pub open spec fn replace_view(s: Seq<char>, pat: Seq<char>, rep: Seq<char>) -> Seq<char>
    decreases s.len(),
{
    if s.len() == 0 {
        Seq::empty()
    } else if pat.len() > 0 && pat.len() <= s.len() && s.take(pat.len() as int) == pat {
        rep + replace_view(s.skip(pat.len() as int), pat, rep)
    } else {
        seq![s[0]] + replace_view(s.skip(1), pat, rep)
    }
}

/// Relies on `str::replace`: every non-overlapping occurrence of the
/// pattern, scanned left to right, is replaced. Nothing is claimed of an
/// empty pattern.
#[verifier::external_body]
fn replace_all(s: &str, from: &str, to: &str) -> (r: String)
    ensures
        from@.len() > 0 ==> r@ == replace_view(s@, from@, to@),
{
    s.replace(from, to)
}

/// The text with every occurrence of each term, in order, wrapped in
/// bold markers.
pub open spec fn pretty_view(s: Seq<char>, terms: Seq<Seq<char>>) -> Seq<char>
    decreases terms.len(),
{
    if terms.len() == 0 {
        s
    } else {
        pretty_view(
            replace_view(s, terms[0], "<b>"@ + terms[0] + "</b>"@),
            terms.skip(1),
        )
    }
}

/// Highlight every search term of the result text with bold markers,
/// term by term in order.
pub fn pretty_search_result(text: &str, terms: &Vec<String>) -> (r: String)
    ensures
        (forall|i: int| 0 <= i < terms@.len() ==> (#[trigger] terms@[i])@.len() > 0) ==> r@
            == pretty_view(text@, strings_view(terms@)),
{
    let ghost tv = strings_view(terms@);
    let mut res = String::from_str(text);
    let mut i: usize = 0;
    proof {
        assert(tv.skip(0) =~= tv);
    }
    while i < terms.len()
        invariant
            tv == strings_view(terms@),
            i <= terms@.len(),
            (forall|k: int| 0 <= k < terms@.len() ==> (#[trigger] terms@[k])@.len() > 0)
                ==> pretty_view(text@, tv) == pretty_view(res@, tv.skip(i as int)),
        decreases terms@.len() - i,
    {
        let term = &terms[i];
        let mut bolded = String::from_str("<b>");
        bolded.append(term.as_str());
        bolded.append("</b>");
        proof {
            assert(bolded@ =~= "<b>"@ + term@ + "</b>"@);
            assert(tv[i as int] == term@);
        }
        let replaced = replace_all(res.as_str(), term.as_str(), bolded.as_str());
        proof {
            if forall|k: int| 0 <= k < terms@.len() ==> (#[trigger] terms@[k])@.len() > 0 {
                assert(terms@[i as int]@.len() > 0);
                assert(replaced@ == replace_view(res@, term@, "<b>"@ + term@ + "</b>"@));
                assert(tv.skip(i as int)[0] == tv[i as int]);
                assert(tv.skip(i as int).skip(1) =~= tv.skip(i + 1));
            }
        }
        res = replaced;
        i += 1;
    }
    proof {
        assert(tv.skip(tv.len() as int).len() == 0);
    }
    res
}

} // verus!
