//! Blended sentence generation: weighted sampling over packed tables,
//! the trigram-with-acceptance-gate policy with bigram fallback, and the
//! rendering of a token line back into text.

use vstd::prelude::*;

use crate::model::Context;
use crate::model::ContextShape;
use crate::model::CumulativeWordTable;
use crate::model::GenerativeModel;
use crate::model::Model;
use crate::model::OccurenceCount;
use crate::model::TokenIdx;
use crate::model::UserGenerativeModel;
use crate::model::UserId;
use crate::model::context_view;
use crate::model::context_of;
use crate::model::increment_at;
use crate::model::in_keys;
use crate::model::lemma_assoc_map_props;
use crate::model::vocab_wf;
use crate::rng::rand_below;
use crate::text::dec_string;
use crate::text::pad_left;
use crate::text::pad_left_view;
use crate::text::pad_right;
use crate::text::pad_right_view;
use crate::text::push_char;
use crate::text::u64_to_string;
use crate::tokenizer::Token;
use crate::tokenizer::TokenView;
use crate::tokenizer::line_view;
use crate::tokenizer::token_eq;

verus! {

/// One sampled token with the evidence behind it: its per-token count,
/// the matched table's total, and the table's most popular entries.
pub struct GeneratedToken {
    /// The sampled token's vocabulary index.
    pub token_idx: TokenIdx,
    /// How often that token was observed after the matched context.
    pub chosen_occurrences: usize,
    /// The matched table's total occurrence count.
    pub table_occurrences: usize,
    /// The most frequent entries of the matched table, for diagnostics.
    pub popular: Vec<(TokenIdx, usize)>,
}

/// The position of a context among a packed model's keys.
fn find_packed(entries: &Vec<(Context, CumulativeWordTable)>, c: Context) -> (r: Option<usize>)
    ensures
        r matches Some(i) ==> 0 <= i < entries@.len() && entries@[i as int].0 == c,
        r is None ==> !in_keys(entries@, c),
{
    let mut i: usize = 0;
    while i < entries.len()
        invariant
            i <= entries@.len(),
            forall|j: int| 0 <= j < i ==> (#[trigger] entries@[j]).0 != c,
        decreases entries@.len() - i,
    {
        if entries[i].0 == c {
            return Some(i);
        }
        i += 1;
    }
    None
}

/// The position of the first entry whose cumulative value exceeds the
/// draw, scanning from position `i`.
pub open spec fn band_index(tt: Seq<(TokenIdx, OccurenceCount)>, n: int, i: int) -> int
    decreases tt.len() - i,
{
    if i >= tt.len() {
        i
    } else if n < tt[i].1 {
        i
    } else {
        band_index(tt, n, i + 1)
    }
}

/// The entry a draw selects: the first (least-index) entry whose
/// cumulative value exceeds the draw, with its per-token count.
pub fn select_at(table: &CumulativeWordTable, n: usize) -> (r: (TokenIdx, usize))
    requires
        table.wf(),
        n < table.occurences,
    ensures
        ({
            let tt = table.token_table@;
            let i = band_index(tt, n as int, 0);
            0 <= i < tt.len() && r.0 == tt[i].0 && r.1 == increment_at(tt, i)
        }),
{
    let tt_len = table.token_table.len();
    let ghost tt = table.token_table@;
    proof {
        assert(tt.len() > 0);
    }
    let mut last_occur: usize = 0;
    let mut i: usize = 0;
    while i < tt_len
        invariant
            table.wf(),
            tt == table.token_table@,
            tt_len == tt.len(),
            i <= tt_len,
            n < table.occurences,
            band_index(tt, n as int, 0) == band_index(tt, n as int, i as int),
            last_occur == if i == 0 {
                0int
            } else {
                tt[i - 1].1 as int
            },
            forall|j: int| 0 <= j < i ==> (#[trigger] tt[j]).1 <= n,
        decreases tt_len - i,
    {
        let (idx, occur) = table.token_table[i];
        if n < occur {
            let this_occur = occur - last_occur;
            proof {
                assert(band_index(tt, n as int, i as int) == i as int);
                assert(tt[i as int].0 == idx);
                assert(this_occur == increment_at(tt, i as int));
            }
            return (idx, this_occur);
        }
        last_occur = occur;
        i += 1;
    }
    proof {
        assert(tt[tt.len() - 1].1 <= n);
        assert(false);
    }
    (0, 0)
}

/// Draw one entry of a cumulative table with probability proportional to
/// its per-token count: a uniform draw below the total falls in exactly
/// one entry's cumulative band, and the first entry whose cumulative value
/// exceeds the draw is returned with its per-token count.
pub fn select_from(table: &CumulativeWordTable, rng: &mut rand::XorShiftRng) -> (r: (
    TokenIdx,
    usize,
))
    requires
        table.wf(),
        table.occurences >= 1,
    ensures
        exists|n: int|
            #![trigger band_index(table.token_table@, n, 0)]
            0 <= n < table.occurences && ({
                let tt = table.token_table@;
                let i = band_index(tt, n, 0);
                0 <= i < tt.len() && r.0 == tt[i].0 && r.1 == increment_at(tt, i)
            }),
{
    let n64 = rand_below(rng, table.occurences as u64);
    let n = n64 as usize;
    proof {
        assert(n < table.occurences);
    }
    let r = select_at(table, n);
    proof {
        let tt = table.token_table@;
        assert(0 <= n < table.occurences && ({
            let i = band_index(tt, n as int, 0);
            0 <= i < tt.len() && r.0 == tt[i].0 && r.1 == increment_at(tt, i)
        }));
    }
    r
}

/// Sample one token index from a packed table, proportionally to its
/// recorded frequency: `None` exactly when the table holds no
/// observations, otherwise the entry a uniform draw selects, with its
/// per-token count.
pub fn sample(table: &CumulativeWordTable, rng: &mut rand::XorShiftRng) -> (r: Option<
    (TokenIdx, usize),
>)
    requires
        table.wf(),
    ensures
        r is None <==> table.occurences == 0,
        r matches Some(p) ==> exists|n: int|
            #![trigger band_index(table.token_table@, n, 0)]
            0 <= n < table.occurences && ({
                let tt = table.token_table@;
                let i = band_index(tt, n, 0);
                0 <= i < tt.len() && p.0 == tt[i].0 && p.1 == increment_at(tt, i)
            }),
{
    if table.occurences == 0 {
        None
    } else {
        Some(select_from(table, rng))
    }
}

/// The first `n` entries of a packed table, most frequent first, each with
/// its per-token count.
pub fn most_popular(table: &CumulativeWordTable, n: usize) -> (out: Vec<(TokenIdx, usize)>)
    requires
        table.wf(),
    ensures
        out@.len() == vstd::math::min(n as int, table.token_table@.len() as int),
        forall|i: int|
            0 <= i < out@.len() ==> (#[trigger] out@[i]).0 == table.token_table@[i].0 && out@[i].1
                == increment_at(table.token_table@, i),
{
    let ghost tt = table.token_table@;
    let mut out: Vec<(TokenIdx, usize)> = Vec::new();
    let mut last_occur: usize = 0;
    let mut i: usize = 0;
    let limit = if n <= table.token_table.len() {
        n
    } else {
        table.token_table.len()
    };
    while i < limit
        invariant
            table.wf(),
            tt == table.token_table@,
            limit <= tt.len(),
            i <= limit,
            out@.len() == i,
            last_occur == if i == 0 {
                0int
            } else {
                tt[i - 1].1 as int
            },
            forall|j: int|
                0 <= j < i ==> (#[trigger] out@[j]).0 == tt[j].0 && out@[j].1 == increment_at(
                    tt,
                    j,
                ),
        decreases limit - i,
    {
        let (token_idx, occur) = table.token_table[i];
        let i_count = occur - last_occur;
        out.push((token_idx, i_count));
        last_occur = occur;
        i += 1;
    }
    out
}

impl GenerativeModel {
    /// Sample the next token for the context at position `idx` of the
    /// line: `None` exactly when no context forms there or the model kept
    /// no table for it; otherwise one weighted draw from the matched table.
    pub fn generate(
        &self,
        current: &Vec<Token>,
        idx: usize,
        vocab: &Vec<Token>,
        rng: &mut rand::XorShiftRng,
    ) -> (r: Option<GeneratedToken>)
        requires
            self.wf(),
            idx <= current@.len(),
            vocab_wf(line_view(vocab@)),
        ensures
            ({
                let ctx = context_view(
                    self.shape,
                    line_view(current@),
                    idx as int,
                    line_view(vocab@),
                );
                &&& (r is Some <==> (ctx matches Some(c) && self.has_context(c)))
                &&& (r matches Some(g) ==> ctx matches Some(c) && self.has_context(c) && {
                    let tt = self.tables()[c].token_table@;
                    &&& g.table_occurrences == self.tables()[c].occurences
                    &&& exists|n: int|
                        #![trigger band_index(tt, n, 0)]
                        0 <= n < self.tables()[c].occurences && ({
                            let i = band_index(tt, n, 0);
                            0 <= i < tt.len() && g.token_idx == tt[i].0 && g.chosen_occurrences
                                == increment_at(tt, i)
                        })
                    &&& exists|i: int|
                        0 <= i < tt.len() && g.token_idx == (#[trigger] tt[i]).0
                            && g.chosen_occurrences == increment_at(tt, i)
                    &&& g.popular@.len() == vstd::math::min(3, tt.len() as int)
                    &&& forall|k: int|
                        0 <= k < g.popular@.len() ==> (#[trigger] g.popular@[k]).0 == tt[k].0
                            && g.popular@[k].1 == increment_at(tt, k)
                    &&& forall|b: int| self.bounded(b) ==> g.token_idx < b
                })
            }),
    {
        let cp = context_of(self.shape, current, idx, vocab);
        match cp {
            None => None,
            Some(context) => {
                match find_packed(&self.contexts, context) {
                    None => {
                        proof {
                            assert(!self.has_context(context));
                        }
                        None
                    },
                    Some(ci) => {
                        proof {
                            lemma_assoc_map_props(self.contexts@);
                            assert(self.tables()[self.contexts@[ci as int].0]
                                == self.contexts@[ci as int].1);
                            assert(in_keys(self.contexts@, context));
                        }
                        let table = &self.contexts[ci].1;
                        let (token_idx, token_count) = select_from(table, rng);
                        let g = GeneratedToken {
                            token_idx,
                            chosen_occurrences: token_count,
                            table_occurrences: table.occurences,
                            popular: most_popular(table, 3),
                        };
                        proof {
                            assert forall|b: int| self.bounded(b) implies g.token_idx < b by {
                                let i = choose|i: int|
                                    0 <= i < table.token_table@.len() && g.token_idx == (
                                    #[trigger] table.token_table@[i]).0 && g.chosen_occurrences
                                        == increment_at(table.token_table@, i);
                                assert(self.contexts@[ci as int].1.bounded(b));
                            }
                        }
                        Some(g)
                    },
                }
            },
        }
    }
}

/// The blending policy's tunable constants.
pub struct BlendConfig {
    /// Numerator of the trigram acceptance probability.
    pub accept_numer: u64,
    /// Denominator of the trigram acceptance probability; never zero.
    pub accept_denom: u64,
    /// A matched trigram table is rejected outright when its total
    /// occurrence count is at or below this threshold.
    pub reject_at_most: usize,
    /// Generation stops once the line holds this many tokens.
    pub max_tokens: usize,
}

impl BlendConfig {
    /// The historical policy: accept a trigram candidate with probability
    /// 74/100 when its table's total exceeds one, and stop at 30 tokens.
    pub fn standard() -> (c: BlendConfig)
        ensures
            c.accept_numer == 74,
            c.accept_denom == 100,
            c.reject_at_most == 1,
            c.max_tokens == 30,
    {
        BlendConfig { accept_numer: 74, accept_denom: 100, reject_at_most: 1, max_tokens: 30 }
    }
}

/// The trigram context of the line's tail, when the model kept a table
/// for it.
pub open spec fn trigram_match(
    um: UserGenerativeModel,
    lv: Seq<TokenView>,
    vv: Seq<TokenView>,
) -> Option<Context> {
    match context_view(ContextShape::Trigram, lv, lv.len() as int, vv) {
        Some(c) => if um.own_trigrams.has_context(c) {
            Some(c)
        } else {
            None
        },
        None => None,
    }
}

/// The bigram context of the line's tail, when the model kept a table
/// for it.
pub open spec fn bigram_match(
    um: UserGenerativeModel,
    lv: Seq<TokenView>,
    vv: Seq<TokenView>,
) -> Option<Context> {
    match context_view(ContextShape::Bigram, lv, lv.len() as int, vv) {
        Some(c) => if um.own_bigrams.has_context(c) {
            Some(c)
        } else {
            None
        },
        None => None,
    }
}

/// The token denotes an entry of the table: some table entry's index
/// names it in the vocabulary.
pub open spec fn sampled_from(t: CumulativeWordTable, vv: Seq<TokenView>, tok: TokenView) -> bool {
    exists|i: int|
        0 <= i < t.token_table@.len() && (#[trigger] t.token_table@[i]).0 < vv.len() && tok
            == vv[t.token_table@[i].0 as int]
}

/// The blending policy. A step's appended token always comes from one of
/// three sources, in order of preference: a trigram table whose total
/// strictly exceeds the rejection threshold (the acceptance roll decides
/// whether it is used); the bigram table, with no threshold; or, when no
/// bigram table matched at all, the end marker.
pub open spec fn step_policy(
    um: UserGenerativeModel,
    lv: Seq<TokenView>,
    vv: Seq<TokenView>,
    cfg: BlendConfig,
    tok: TokenView,
) -> bool {
    ||| (trigram_match(um, lv, vv) matches Some(c) && um.own_trigrams.tables()[c].occurences
        > cfg.reject_at_most && sampled_from(um.own_trigrams.tables()[c], vv, tok))
    ||| (bigram_match(um, lv, vv) matches Some(c) && sampled_from(
        um.own_bigrams.tables()[c],
        vv,
        tok,
    ))
    ||| (bigram_match(um, lv, vv) is None && tok is End)
}

/// One generation step: consult the trigram model behind its rejection
/// threshold and acceptance roll, fall back to the bigram model, and as a
/// last resort emit the end marker. A trigram candidate whose table total
/// is at or below the threshold is never chosen from the trigram path.
#[verifier::spinoff_prover]
#[verifier::rlimit(60)]
pub fn blend_step(
    model: &Model,
    user_model: &UserGenerativeModel,
    line: &Vec<Token>,
    cfg: &BlendConfig,
    rng: &mut rand::XorShiftRng,
) -> (t: Token)
    requires
        model.wf(),
        user_model.wf(),
        user_model.bounded(model.tokens@.len() as int),
        cfg.accept_denom >= 1,
    ensures
        step_policy(*user_model, line_view(line@), line_view(model.tokens@), *cfg, t@),
{
    let ghost lv = line_view(line@);
    let ghost vv = line_view(model.tokens@);
    let idx = line.len();
    let trigram_selection = user_model.own_trigrams.generate(line, idx, &model.tokens, rng);
    let bigram_selection = user_model.own_bigrams.generate(line, idx, &model.tokens, rng);

    let primary: Option<GeneratedToken> = match trigram_selection {
        Some(g) => {
            if g.table_occurrences <= cfg.reject_at_most {
                None
            } else {
                let roll = rand_below(rng, cfg.accept_denom);
                if roll < cfg.accept_numer {
                    Some(g)
                } else {
                    None
                }
            }
        },
        None => None,
    };

    let chosen: Option<GeneratedToken> = match primary {
        Some(g) => Some(g),
        None => bigram_selection,
    };

    match chosen {
        Some(g) => {
            proof {
                assert(g.token_idx < model.tokens@.len());
                assert(vv[g.token_idx as int] == model.tokens@[g.token_idx as int]@);
            }
            let t = model.tokens[g.token_idx].clone();
            proof {
                assert(step_policy(*user_model, lv, vv, *cfg, t@));
            }
            t
        },
        None => {
            let t = Token::End;
            proof {
                assert(bigram_match(*user_model, lv, vv) is None);
            }
            t
        },
    }
}

/// Build the generated token line: start from the seed and append one
/// policy-chosen token per step, stopping when the end marker is appended
/// or the line reaches the configured length bound, whichever comes first.
#[verifier::spinoff_prover]
#[verifier::rlimit(100)]
pub fn generate_tokens(
    model: &Model,
    user_model: &UserGenerativeModel,
    cfg: &BlendConfig,
    rng: &mut rand::XorShiftRng,
    sentence_start: &Vec<Token>,
) -> (line: Vec<Token>)
    requires
        model.wf(),
        user_model.wf(),
        user_model.bounded(model.tokens@.len() as int),
        cfg.accept_denom >= 1,
    ensures
        line@.len() >= sentence_start@.len(),
        sentence_start@.len() < cfg.max_tokens ==> line@.len() <= cfg.max_tokens,
        sentence_start@.len() >= cfg.max_tokens ==> line@.len() == sentence_start@.len(),
        forall|j: int|
            0 <= j < sentence_start@.len() ==> line_view(line@)[j] == line_view(
                sentence_start@,
            )[j],
        line@.len() > 0 ==> (line_view(line@).last() is End || line@.len() >= cfg.max_tokens),
        line@.len() == 0 ==> sentence_start@.len() == 0 && cfg.max_tokens == 0,
        forall|k: int|
            sentence_start@.len() <= k < line@.len() ==> step_policy(
                *user_model,
                line_view(line@).take(k),
                line_view(model.tokens@),
                *cfg,
                line_view(line@)[k],
            ),
        forall|k: int|
            sentence_start@.len() <= k < line@.len() - 1 ==> !((#[trigger] line_view(line@)[k])
                is End),
        user_model.is_empty() && line_view(sentence_start@) =~= seq![TokenView::Start]
            && cfg.max_tokens >= 2 ==> line_view(line@) =~= seq![
            TokenView::Start,
            TokenView::End,
        ],
{
    let ghost vv = line_view(model.tokens@);
    let ghost sv = line_view(sentence_start@);
    let mut line: Vec<Token> = Vec::new();
    let mut si: usize = 0;
    while si < sentence_start.len()
        invariant
            si <= sentence_start@.len(),
            line@.len() == si,
            forall|j: int| 0 <= j < si ==> line_view(line@)[j] == line_view(sentence_start@)[j],
        decreases sentence_start@.len() - si,
    {
        line.push(sentence_start[si].clone());
        si += 1;
        proof {
            assert forall|j: int|
                0 <= j < si implies line_view(line@)[j] == line_view(sentence_start@)[j] by {
                assert(line_view(line@)[j] == line@[j]@);
            }
        }
    }

    loop
        invariant_except_break
            model.wf(),
            user_model.wf(),
            user_model.bounded(model.tokens@.len() as int),
            vv == line_view(model.tokens@),
            sv == line_view(sentence_start@),
            cfg.accept_denom >= 1,
            line@.len() >= sentence_start@.len(),
            sentence_start@.len() < cfg.max_tokens ==> line@.len() <= cfg.max_tokens,
            sentence_start@.len() >= cfg.max_tokens ==> line@.len() == sentence_start@.len(),
            forall|j: int|
                0 <= j < sentence_start@.len() ==> line_view(line@)[j] == line_view(
                    sentence_start@,
                )[j],
            forall|k: int|
                sentence_start@.len() <= k < line@.len() ==> step_policy(
                    *user_model,
                    line_view(line@).take(k),
                    line_view(model.tokens@),
                    *cfg,
                    line_view(line@)[k],
                ),
            forall|k: int|
                sentence_start@.len() <= k < line@.len() - 1 ==> !((
                #[trigger] line_view(line@)[k]) is End),
            user_model.is_empty() && line_view(sentence_start@) =~= seq![TokenView::Start]
                && cfg.max_tokens >= 2 ==> (line_view(line@) =~= seq![TokenView::Start] || line_view(
                line@,
            ) =~= seq![TokenView::Start, TokenView::End]),
        ensures
            line@.len() >= sentence_start@.len(),
            sentence_start@.len() < cfg.max_tokens ==> line@.len() <= cfg.max_tokens,
            sentence_start@.len() >= cfg.max_tokens ==> line@.len() == sentence_start@.len(),
            forall|j: int|
                0 <= j < sentence_start@.len() ==> line_view(line@)[j] == line_view(
                    sentence_start@,
                )[j],
            line@.len() > 0 ==> (line_view(line@).last() is End || line@.len() >= cfg.max_tokens),
            line@.len() == 0 ==> sentence_start@.len() == 0 && cfg.max_tokens == 0,
            forall|k: int|
                sentence_start@.len() <= k < line@.len() ==> step_policy(
                    *user_model,
                    line_view(line@).take(k),
                    line_view(model.tokens@),
                    *cfg,
                    line_view(line@)[k],
                ),
            forall|k: int|
                sentence_start@.len() <= k < line@.len() - 1 ==> !((
                #[trigger] line_view(line@)[k]) is End),
            user_model.is_empty() && line_view(sentence_start@) =~= seq![TokenView::Start]
                && cfg.max_tokens >= 2 ==> line_view(line@) =~= seq![
                TokenView::Start,
                TokenView::End,
            ],
        decreases cfg.max_tokens - line@.len() + 1,
    {
        if line.len() >= cfg.max_tokens {
            proof {
                if user_model.is_empty() && sv =~= seq![TokenView::Start] && cfg.max_tokens >= 2 {
                    if line_view(line@) =~= seq![TokenView::Start] {
                        assert(line@.len() == 1);
                        assert(false);
                    }
                }
            }
            break ;
        }
        let mut ends = false;
        if line.len() > 0 {
            let last = line.len() - 1;
            ends = token_eq(&line[last], &Token::End);
        }
        if ends {
            proof {
                assert(line_view(line@).last() == line@[line@.len() - 1]@);
                if user_model.is_empty() && sv =~= seq![TokenView::Start] && cfg.max_tokens >= 2 {
                    if line_view(line@) =~= seq![TokenView::Start] {
                        assert(line_view(line@)[0] == line@[0]@);
                        assert(false);
                    }
                    assert(line_view(line@) =~= seq![TokenView::Start, TokenView::End]);
                }
            }
            break ;
        }
        let ghost pre = line@;
        proof {
            if user_model.is_empty() && sv =~= seq![TokenView::Start] && cfg.max_tokens >= 2 {
                if line_view(pre) =~= seq![TokenView::Start, TokenView::End] {
                    assert(line_view(pre)[1] == pre[1]@);
                    assert(pre[1]@ is End);
                    assert(false);
                }
                assert(line_view(pre) =~= seq![TokenView::Start]);
            }
        }
        let t = blend_step(model, user_model, &line, cfg, rng);
        line.push(t);
        proof {
            assert(line_view(line@) =~= line_view(pre).push(t@));
            assert(line_view(line@).take(pre.len() as int) =~= line_view(pre));
            assert forall|k: int|
                sentence_start@.len() <= k < line@.len() implies step_policy(
                *user_model,
                line_view(line@).take(k),
                vv,
                *cfg,
                line_view(line@)[k],
            ) by {
                if k < pre.len() {
                    assert(line_view(line@).take(k) =~= line_view(pre).take(k));
                    assert(line_view(line@)[k] == line_view(pre)[k]);
                } else {
                    assert(line_view(line@)[k] == t@);
                }
            }
            assert forall|j: int|
                0 <= j < sentence_start@.len() implies line_view(line@)[j] == line_view(
                sentence_start@,
            )[j] by {
                assert(line_view(line@)[j] == line_view(pre)[j]);
            }
            assert forall|k: int|
                sentence_start@.len() <= k < line@.len() - 1 implies !((
            #[trigger] line_view(line@)[k]) is End) by {
                assert(line_view(line@)[k] == line_view(pre)[k]);
                if k == pre.len() - 1 {
                    assert(line_view(pre)[k] == pre[k]@);
                }
            }
            if user_model.is_empty() && sv =~= seq![TokenView::Start] && cfg.max_tokens >= 2 {
                assert(step_policy(*user_model, line_view(pre), vv, *cfg, t@));
                assert(trigram_match(*user_model, line_view(pre), vv) is None) by {
                    match context_view(ContextShape::Trigram, line_view(pre), 1int, vv) {
                        Some(c) => {
                            assert(user_model.own_trigrams.contexts@.len() == 0);
                            assert(!user_model.own_trigrams.has_context(c));
                        },
                        None => {},
                    }
                }
                assert(bigram_match(*user_model, line_view(pre), vv) is None) by {
                    match context_view(ContextShape::Bigram, line_view(pre), 1int, vv) {
                        Some(c) => {
                            assert(user_model.own_bigrams.contexts@.len() == 0);
                            assert(!user_model.own_bigrams.has_context(c));
                        },
                        None => {},
                    }
                }
                assert(t@ is End);
                assert(line_view(line@) =~= seq![TokenView::Start, TokenView::End]);
            }
        }
    }
    line
}

/// The chunk of rendered text one adjacent token pair contributes: words
/// and links carry a following space only before another word or link;
/// punctuation carries one only when its trailing-whitespace flag is set;
/// the start and end markers render as nothing.
pub open spec fn piece(t: TokenView, n: TokenView) -> Seq<char> {
    match t {
        TokenView::Start => Seq::empty(),
        TokenView::End => Seq::empty(),
        TokenView::Word(w) => if n is Word || n is Link {
            w + seq![' ']
        } else {
            w
        },
        TokenView::Link(l) => if n is Word || n is Link {
            l + seq![' ']
        } else {
            l
        },
        TokenView::Punctuation(p, ws) => if ws {
            p + seq![' ']
        } else {
            p
        },
    }
}

/// The rendering of a token line: every token contributes its piece, and
/// the token after it (the end marker, for the last one) decides whether a
/// space follows.
pub open spec fn render_view(s: Seq<TokenView>) -> Seq<char>
    decreases s.len(),
{
    if s.len() == 0 {
        Seq::empty()
    } else if s.len() == 1 {
        piece(s[0], TokenView::End)
    } else {
        piece(s[0], s[1]) + render_view(s.skip(1))
    }
}

/// Render a token line as text, suppressing the start and end markers and
/// spacing words, links and punctuation as recorded at learning time. Every
/// non-marker token's text appears, including a final token that the length
/// bound cut off before an end marker.
pub fn generate_sentence(tokens: &Vec<Token>) -> (message: String)
    ensures
        message@ == render_view(line_view(tokens@)),
{
    let ghost lv = line_view(tokens@);
    let mut message = String::new();
    let len = tokens.len();
    if len == 0 {
        proof {
            assert(message@ =~= render_view(lv));
        }
        return message;
    }
    let mut i: usize = 0;
    proof {
        assert(lv.skip(0) =~= lv);
        assert(message@ + render_view(lv) =~= render_view(lv));
    }
    while i < len - 1
        invariant
            lv == line_view(tokens@),
            len == tokens@.len(),
            len >= 1,
            i <= len - 1,
            message@ + render_view(lv.skip(i as int)) == render_view(lv),
        decreases tokens@.len() - i,
    {
        let ghost pre = message@;
        let t = &tokens[i];
        let n = &tokens[i + 1];
        proof {
            assert(lv[i as int] == t@);
            assert(lv[i + 1] == n@);
        }
        match (t, n) {
            (Token::Start, _) => (),
            (Token::End, _) => (),
            (Token::Word(word), Token::Word(_)) | (Token::Word(word), Token::Link(_)) => {
                message.append(word.as_str());
                push_char(&mut message, ' ');
            },
            (Token::Word(word), _) => {
                message.append(word.as_str());
            },
            (Token::Link(link), Token::Link(_)) | (Token::Link(link), Token::Word(_)) => {
                message.append(link.as_str());
                push_char(&mut message, ' ');
            },
            (Token::Link(link), _) => {
                message.append(link.as_str());
            },
            (Token::Punctuation(punc, whitespace), _) => {
                message.append(punc.as_str());
                if *whitespace {
                    push_char(&mut message, ' ');
                }
            },
        }
        proof {
            assert(message@ =~= pre + piece(lv[i as int], lv[i + 1]));
            assert(lv.skip(i as int).skip(1) =~= lv.skip(i + 1));
            assert(lv.skip(i as int)[0] == lv[i as int]);
            assert(lv.skip(i as int)[1] == lv[i + 1]);
            assert(render_view(lv.skip(i as int)) == piece(lv[i as int], lv[i + 1]) + render_view(
                lv.skip(i + 1),
            ));
            assert(message@ + render_view(lv.skip(i + 1)) =~= render_view(lv));
        }
        i += 1;
    }
    let ghost pre = message@;
    proof {
        assert(i + 1 == tokens@.len());
        assert(lv.skip(i as int).len() == 1);
        assert(lv.skip(i as int)[0] == lv[i as int]);
        assert(render_view(lv.skip(i as int)) == piece(lv[i as int], TokenView::End));
        assert(lv[i as int] == tokens@[i as int]@);
    }
    match &tokens[len - 1] {
        Token::Start => (),
        Token::End => (),
        Token::Word(word) => {
            message.append(word.as_str());
        },
        Token::Link(link) => {
            message.append(link.as_str());
        },
        Token::Punctuation(punc, whitespace) => {
            message.append(punc.as_str());
            if *whitespace {
                push_char(&mut message, ' ');
            }
        },
    }
    proof {
        assert(message@ =~= pre + piece(lv[i as int], TokenView::End));
        assert(message@ =~= render_view(lv));
    }
    message
}

/// A token line the standard blending policy could have produced from
/// the seed: it extends the seed, every appended token obeys the policy,
/// and it stops at the first appended end marker or at the length bound,
/// whichever comes first.
pub open spec fn policy_line(
    um: UserGenerativeModel,
    vv: Seq<TokenView>,
    cfg: BlendConfig,
    seed: Seq<TokenView>,
    lv: Seq<TokenView>,
) -> bool {
    &&& lv.len() >= seed.len()
    &&& (seed.len() < cfg.max_tokens ==> lv.len() <= cfg.max_tokens)
    &&& (seed.len() >= cfg.max_tokens ==> lv.len() == seed.len())
    &&& (forall|j: int| 0 <= j < seed.len() ==> lv[j] == seed[j])
    &&& (lv.len() > 0 ==> (lv.last() is End || lv.len() >= cfg.max_tokens))
    &&& (forall|k: int| seed.len() <= k < lv.len() ==> step_policy(um, lv.take(k), vv, cfg, lv[k]))
    &&& (forall|k: int| seed.len() <= k < lv.len() - 1 ==> !((#[trigger] lv[k]) is End))
}

/// Generate one sentence: run the blended policy from the seed line and
/// render the result, which is always the rendering of some line the
/// policy allows. A user model with no history at all renders to the
/// empty string from the minimal seed.
#[verifier::rlimit(30)]
pub fn generate(
    model: &Model,
    rng: &mut rand::XorShiftRng,
    sentence_start: &Vec<Token>,
    user_model: &UserGenerativeModel,
) -> (message: String)
    requires
        model.wf(),
        user_model.wf(),
        user_model.bounded(model.tokens@.len() as int),
    ensures
        exists|lv: Seq<TokenView>|
            policy_line(
                *user_model,
                line_view(model.tokens@),
                BlendConfig { accept_numer: 74, accept_denom: 100, reject_at_most: 1, max_tokens: 30 },
                line_view(sentence_start@),
                lv,
            ) && message@ == #[trigger] render_view(lv),
        user_model.is_empty() && line_view(sentence_start@) =~= seq![TokenView::Start]
            ==> message@ == Seq::<char>::empty(),
{
    let cfg = BlendConfig::standard();
    let line = generate_tokens(model, user_model, &cfg, rng, sentence_start);
    let message = generate_sentence(&line);
    proof {
        assert(policy_line(
            *user_model,
            line_view(model.tokens@),
            cfg,
            line_view(sentence_start@),
            line_view(line@),
        ) && message@ == render_view(line_view(line@)));
        if user_model.is_empty() && line_view(sentence_start@) =~= seq![TokenView::Start] {
            assert(line_view(line@) =~= seq![TokenView::Start, TokenView::End]);
            let lv = line_view(line@);
            assert(render_view(lv) == piece(TokenView::Start, TokenView::End) + render_view(
                lv.skip(1),
            ));
            assert(lv.skip(1).len() == 1);
            assert(render_view(lv) =~= Seq::<char>::empty());
        }
    }
    message
}

/// Pick one known user at random, uniformly over the model's user list.
pub fn choose_user(model: &Model, rng: &mut rand::XorShiftRng) -> (id: UserId)
    requires
        model.users@.len() >= 1,
    ensures
        exists|i: int| 0 <= i < model.users@.len() && id == (#[trigger] model.users@[i]).0,
{
    let n = model.users.len();
    let user_idx = rand_below(rng, n as u64) as usize;
    model.users[user_idx].0
}

/// The diagnostic text of one token: words and links print as themselves,
/// punctuation with its trailing-whitespace flag, the markers by name.
pub open spec fn token_text(t: TokenView) -> Seq<char> {
    match t {
        TokenView::Start => ".Start"@,
        TokenView::Word(w) => w,
        TokenView::Punctuation(p, ws) => p + ".sp?"@ + (if ws {
            "true"@
        } else {
            "false"@
        }),
        TokenView::Link(l) => l,
        TokenView::End => ".End"@,
    }
}

/// Render one token's diagnostic text.
pub fn format_token(token: &Token) -> (r: String)
    ensures
        r@ == token_text(token@),
{
    match token {
        Token::Start => String::from_str(".Start"),
        Token::Word(word) => word.clone(),
        Token::Punctuation(punc, whitespace) => {
            let mut r = punc.clone();
            r.append(".sp?");
            if *whitespace {
                r.append("true");
            } else {
                r.append("false");
            }
            proof {
                assert(r@ =~= token_text(token@));
            }
            r
        },
        Token::Link(link) => link.clone(),
        Token::End => String::from_str(".End"),
    }
}

/// The diagnostic text of one popular entry: its count right-aligned in
/// five columns, then its token text left-aligned in twelve.
pub open spec fn entry_text(p: (TokenIdx, usize), toks: Seq<TokenView>) -> Seq<char> {
    "("@ + pad_left_view(dec_string(p.1 as int), 5) + ") "@ + pad_right_view(
        token_text(toks[p.0 as int]),
        12,
    ) + " "@
}

/// The popular entries' texts joined with single spaces.
pub open spec fn populars_text(pop: Seq<(TokenIdx, usize)>, toks: Seq<TokenView>) -> Seq<char>
    decreases pop.len(),
{
    if pop.len() == 0 {
        Seq::empty()
    } else if pop.len() == 1 {
        entry_text(pop[0], toks)
    } else {
        populars_text(pop.drop_last(), toks) + " "@ + entry_text(pop.last(), toks)
    }
}

/// The diagnostic line for one sampled token: the matched table's total,
/// the chosen count and token, and the table's most popular entries; a
/// single dot when nothing was sampled.
pub open spec fn selection_text(r: Option<GeneratedToken>, toks: Seq<TokenView>) -> Seq<char> {
    match r {
        None => "."@,
        Some(g) => pad_left_view(dec_string(g.table_occurrences as int), 5) + " ||| ("@
            + pad_left_view(dec_string(g.chosen_occurrences as int), 5) + ") "@ + pad_right_view(
            token_text(toks[g.token_idx as int]),
            12,
        ) + " ||| "@ + populars_text(
            if g.popular@.len() <= 3 {
                g.popular@
            } else {
                g.popular@.take(3)
            },
            toks,
        ),
    }
}

/// Render the diagnostic line for one sampled token, naming tokens
/// through the vocabulary. At most three popular entries are shown.
#[verifier::rlimit(60)]
pub fn format_selection(selection: &Option<GeneratedToken>, all_tokens: &Vec<Token>) -> (r: String)
    requires
        match *selection {
            None => true,
            Some(g) => g.token_idx < all_tokens@.len() && forall|i: int|
                0 <= i < g.popular@.len() ==> (#[trigger] g.popular@[i]).0 < all_tokens@.len(),
        },
    ensures
        r@ == selection_text(
            match selection {
                None => None,
                Some(g) => Some(
                    GeneratedToken {
                        token_idx: g.token_idx,
                        chosen_occurrences: g.chosen_occurrences,
                        table_occurrences: g.table_occurrences,
                        popular: g.popular,
                    },
                ),
            },
            line_view(all_tokens@),
        ),
{
    let ghost toks = line_view(all_tokens@);
    match selection {
        None => String::from_str("."),
        Some(g) => {
            let ghost pop = if g.popular@.len() <= 3 {
                g.popular@
            } else {
                g.popular@.take(3)
            };
            let limit = if g.popular.len() <= 3 {
                g.popular.len()
            } else {
                3
            };
            proof {
                assert(pop.len() == limit);
                assert(forall|k: int| 0 <= k < pop.len() ==> pop[k] == (#[trigger] g.popular@[k]));
            }
            let mut joined = String::new();
            let mut k: usize = 0;
            while k < limit
                invariant
                    limit <= g.popular@.len(),
                    pop == (if g.popular@.len() <= 3 {
                        g.popular@
                    } else {
                        g.popular@.take(3)
                    }),
                    pop.len() == limit,
                    toks == line_view(all_tokens@),
                    forall|i: int|
                        0 <= i < g.popular@.len() ==> (#[trigger] g.popular@[i]).0
                            < all_tokens@.len(),
                    k <= limit,
                    joined@ == populars_text(pop.take(k as int), toks),
                decreases limit - k,
            {
                let (tidx, count) = g.popular[k];
                proof {
                    assert(pop[k as int] == g.popular@[k as int]);
                    assert(g.popular@[k as int].0 < all_tokens@.len());
                }
                if k > 0 {
                    joined.append(" ");
                }
                joined.append("(");
                let cnt = u64_to_string(count as u64);
                let padded = pad_left(cnt.as_str(), 5);
                joined.append(padded.as_str());
                joined.append(") ");
                let ttext = format_token(&all_tokens[tidx]);
                let tpad = pad_right(ttext.as_str(), 12);
                joined.append(tpad.as_str());
                joined.append(" ");
                k += 1;
                proof {
                    assert(toks[tidx as int] == all_tokens@[tidx as int]@);
                    assert(pop.take(k as int).drop_last() =~= pop.take(k - 1));
                    assert(pop.take(k as int).last() == pop[k - 1]);
                    if k == 1 {
                        assert(joined@ =~= populars_text(pop.take(k as int), toks));
                    } else {
                        assert(joined@ =~= populars_text(pop.take(k - 1), toks) + " "@
                            + entry_text(pop[k - 1], toks));
                        assert(joined@ =~= populars_text(pop.take(k as int), toks));
                    }
                }
            }
            proof {
                assert(pop.take(limit as int) =~= pop);
            }
            let mut r = pad_left(u64_to_string(g.table_occurrences as u64).as_str(), 5);
            r.append(" ||| (");
            let chosen = pad_left(u64_to_string(g.chosen_occurrences as u64).as_str(), 5);
            r.append(chosen.as_str());
            r.append(") ");
            let ttext = format_token(&all_tokens[g.token_idx]);
            let tpad = pad_right(ttext.as_str(), 12);
            r.append(tpad.as_str());
            r.append(" ||| ");
            r.append(joined.as_str());
            proof {
                assert(toks[g.token_idx as int] == all_tokens@[g.token_idx as int]@);
                assert(r@ =~= selection_text(
                    Some(
                        GeneratedToken {
                            token_idx: g.token_idx,
                            chosen_occurrences: g.chosen_occurrences,
                            table_occurrences: g.table_occurrences,
                            popular: g.popular,
                        },
                    ),
                    toks,
                ));
            }
            r
        },
    }
}

} // verus!
