//! LLM-tier prompt construction and call outcomes.
//!
//! When the rules file defines the whole category set, the LLM must be
//! offered only those categories plus an explicit abstain option, and every
//! call's outcome and token usage is recorded.

use vstd::prelude::*;
use crate::classify::rules::{defs_view, CategoryDef};
use crate::text::{
    blank, chars_eq_ignore_ascii_case, chars_of, collapse_whitespace, eq_ignore_ascii_case, is_blank, join_with,
    slice_to_vec, string_from_chars, trim, trim_chars, words,
};

verus! {

/// The abstain label offered to the LLM; it matches the eval's no-answer
/// label.
pub const ABSTAIN_LABEL: &'static str = "unclear";

/// What happened on one LLM call.
#[derive(Clone, Copy, Debug, PartialEq, Eq, Structural)]
pub enum LlmOutcome {
    /// A verdict the pipeline may adopt.
    Answered,
    /// The model chose the abstain label.
    Abstained,
    /// The model named a category outside the configured set; dropped.
    OutOfSet,
    /// No usable reply: transport error, non-2xx, refusal, unparseable text.
    Failed,
}

/// Stable label of an outcome.
pub open spec fn outcome_label(o: LlmOutcome) -> Seq<char> {
    match o {
        LlmOutcome::Answered => "answered"@,
        LlmOutcome::Abstained => "abstained"@,
        LlmOutcome::OutOfSet => "out_of_set"@,
        LlmOutcome::Failed => "failed"@,
    }
}

impl LlmOutcome {
    /// Stable label stored with each call's usage row.
    pub fn as_str(self) -> (s: &'static str)
        ensures
            s@ == outcome_label(self),
    {
        match self {
            LlmOutcome::Answered => "answered",
            LlmOutcome::Abstained => "abstained",
            LlmOutcome::OutOfSet => "out_of_set",
            LlmOutcome::Failed => "failed",
        }
    }
}

/// Token usage the provider reported for one call.
#[derive(Clone, Copy, Debug, Default, PartialEq, Eq, Structural)]
pub struct LlmUsage {
    /// Prompt tokens billed.
    pub input_tokens: u64,
    /// Completion tokens billed, thinking included.
    pub output_tokens: u64,
}


/// Complexity scale shared by the default and the restricted prompt.
pub const COMPLEXITY_GUIDE: &'static str = "Complexity 1-5: 1=trivial (config/version bump/typo), 2=simple (single-file bugfix), 3=moderate (multi-file feature), 4=complex (cross-module/arch change), 5=highly complex (system design/major refactor).";

/// Default system prompt of the LLM tier: the built-in category list, the
/// JSON reply contract and the complexity scale.
pub const SYSTEM_PROMPT: &'static str = "You are a git commit classifier. Respond with ONLY a JSON object: {\"category\": \"feature|bugfix|chore|documentation|refactor|test|ci|performance|style|build|revert|merge|breaking|uncategorized\", \"subcategory\": \"optional string or null\", \"confidence\": 0.0-1.0, \"complexity\": <integer 1-5>}. Complexity 1-5: 1=trivial (config/version bump/typo), 2=simple (single-file bugfix), 3=moderate (multi-file feature), 4=complex (cross-module/arch change), 5=highly complex (system design/major refactor). No prose, no markdown.";

/// First line of the restricted prompt.
pub const PROMPT_HEAD: &'static str = "You are a git commit classifier. Assign the commit to exactly one of these categories:\n";

/// The abstain option's line.
pub const ABSTAIN_LINE: &'static str = "- unclear: none of the categories above clearly fits, or the message is too vague to decide.\n";

/// Start of the JSON reply contract, up to the offered names.
pub const CONTRACT_OPEN: &'static str = "Respond with ONLY a JSON object: {\"category\": \"<one of: ";

/// Rest of the JSON reply contract, after the offered names.
pub const CONTRACT_CLOSE: &'static str = ">\", \"subcategory\": null, \"confidence\": 0.0-1.0, \"complexity\": <integer 1-5>}. ";

/// Last words of the restricted prompt.
pub const PROMPT_TAIL: &'static str = " No prose, no markdown.";

/// The prompt line of one category: its description, whitespace collapsed,
/// after the name when the description has any non-whitespace text; the
/// name alone otherwise.
pub open spec fn category_line(d: (Seq<char>, Option<Seq<char>>)) -> Seq<char> {
    if d.1 is Some && !blank(d.1->0) {
        "- "@ + d.0 + ": "@ + join_with(words(d.1->0), seq![' ']) + "\n"@
    } else {
        "- "@ + d.0 + "\n"@
    }
}

/// The category lines, in order.
pub open spec fn category_lines(defs: Seq<(Seq<char>, Option<Seq<char>>)>) -> Seq<char>
    decreases defs.len(),
{
    if defs.len() == 0 {
        Seq::empty()
    } else {
        category_lines(defs.drop_last()) + category_line(defs.last())
    }
}

/// The names offered in the reply contract: each category, then the
/// abstain label.
pub open spec fn offered_names(defs: Seq<(Seq<char>, Option<Seq<char>>)>) -> Seq<Seq<char>> {
    Seq::new(defs.len(), |i: int| defs[i].0).push(ABSTAIN_LABEL@)
}

/// The whole restricted prompt for `defs`.
pub open spec fn restricted_prompt(defs: Seq<(Seq<char>, Option<Seq<char>>)>) -> Seq<char> {
    PROMPT_HEAD@ + category_lines(defs) + ABSTAIN_LINE@ + CONTRACT_OPEN@ + join_with(offered_names(defs), "|"@)
        + CONTRACT_CLOSE@ + COMPLEXITY_GUIDE@ + PROMPT_TAIL@
}

/// System prompt offering only `categories` plus [`ABSTAIN_LABEL`]: one
/// line per category, the abstain line, then the JSON contract and the
/// complexity scale. No example commit text is included.
pub fn restricted_system_prompt(categories: &[CategoryDef]) -> (p: String)
    ensures
        p@ == restricted_prompt(defs_view(categories@)),
{
    let ghost defs = defs_view(categories@);
    let mut lines = chars_of(PROMPT_HEAD);
    let mut names: Vec<char> = Vec::new();
    let mut i: usize = 0;
    while i < categories.len()
        invariant
            i <= categories.len(),
            defs == defs_view(categories@),
            lines@ == PROMPT_HEAD@ + category_lines(defs.take(i as int)),
            names@ == join_with(Seq::new(i as nat, |k: int| defs[k].0), "|"@),
        decreases categories.len() - i,
    {
        let c = &categories[i];
        let ghost before = lines@;
        proof {
            assert(defs.take(i as int + 1).drop_last() =~= defs.take(i as int));
            assert(defs[i as int] == crate::classify::rules::def_view(categories@[i as int]));
        }
        let mut dash = chars_of("- ");
        lines.append(&mut dash);
        let mut name = chars_of(c.name.as_str());
        lines.append(&mut name);
        let described = match &c.description {
            Some(d) => !is_blank(d.as_str()),
            None => false,
        };
        if described {
            let d = c.description.as_ref().unwrap();
            let mut colon = chars_of(": ");
            lines.append(&mut colon);
            let dv = chars_of(d.as_str());
            let mut flat = collapse_whitespace(dv.as_slice());
            lines.append(&mut flat);
        }
        let mut nl = chars_of("\n");
        lines.append(&mut nl);
        proof {
            assert(lines@ =~= before + category_line(defs[i as int]));
            assert(lines@ =~= PROMPT_HEAD@ + category_lines(defs.take(i as int + 1)));
        }
        let ghost names_before = names@;
        if i > 0 {
            let mut bar = chars_of("|");
            names.append(&mut bar);
        }
        let mut name2 = chars_of(c.name.as_str());
        names.append(&mut name2);
        proof {
            let prev = Seq::new(i as nat, |k: int| defs[k].0);
            let next = Seq::new(i as nat + 1, |k: int| defs[k].0);
            assert(next.drop_last() =~= prev);
            if i > 0 {
                assert(names@ =~= join_with(next, "|"@));
            } else {
                assert(names@ =~= join_with(next, "|"@));
            }
        }
        i = i + 1;
    }
    proof {
        assert(defs.take(categories.len() as int) =~= defs);
        let all = Seq::new(defs.len(), |k: int| defs[k].0);
        assert(Seq::new(i as nat, |k: int| defs[k].0) =~= all);
        assert(offered_names(defs).drop_last() =~= all);
    }
    let mut abstain = chars_of(ABSTAIN_LINE);
    lines.append(&mut abstain);
    let mut open = chars_of(CONTRACT_OPEN);
    lines.append(&mut open);
    let ghost before_names = lines@;
    lines.append(&mut names);
    if i > 0 {
        let mut bar = chars_of("|");
        lines.append(&mut bar);
    }
    let mut label = chars_of(ABSTAIN_LABEL);
    lines.append(&mut label);
    proof {
        assert(lines@ =~= before_names + join_with(offered_names(defs), "|"@));
    }
    let mut close = chars_of(CONTRACT_CLOSE);
    lines.append(&mut close);
    let mut guide = chars_of(COMPLEXITY_GUIDE);
    lines.append(&mut guide);
    let mut tail = chars_of(PROMPT_TAIL);
    lines.append(&mut tail);
    proof {
        assert(lines@ =~= restricted_prompt(defs));
    }
    string_from_chars(lines.as_slice())
}


/// How a reply's category stands against the configured set.
#[derive(Clone, Debug, PartialEq, Eq)]
pub enum CategoryResolution {
    /// The model chose the abstain label.
    Abstained,
    /// The model named a category outside the configured set.
    OutOfSet,
    /// The category to store, and whether the model's subcategory is kept.
    Accepted { category: String, keep_subcategory: bool },
}

/// Position of the first definition whose name equals `name` ignoring
/// ASCII case.
pub open spec fn first_named_ci(defs: Seq<(Seq<char>, Option<Seq<char>>)>, name: Seq<char>) -> Option<int>
    decreases defs.len(),
{
    if defs.len() == 0 {
        None
    } else {
        match first_named_ci(defs.drop_last(), name) {
            Some(k) => Some(k),
            None => if eq_ignore_ascii_case(defs.last().0, name) {
                Some(defs.len() - 1)
            } else {
                None
            },
        }
    }
}

/// Position of the first definition of `defs` named `name` ignoring ASCII
/// case.
fn find_named_ci(defs: &[CategoryDef], name: &[char]) -> (r: Option<usize>)
    ensures
        r matches Some(i) ==> i < defs.len() && first_named_ci(defs_view(defs@), name@) == Some(i as int),
        r is None ==> first_named_ci(defs_view(defs@), name@) is None,
{
    let ghost v = defs_view(defs@);
    let mut i: usize = 0;
    while i < defs.len()
        invariant
            i <= defs.len(),
            v == defs_view(defs@),
            first_named_ci(v.take(i as int), name@) is None,
        decreases defs.len() - i,
    {
        proof {
            assert(v.take(i as int + 1).drop_last() =~= v.take(i as int));
            assert(v.take(i as int + 1).last() == v[i as int]);
        }
        let n = chars_of(defs[i].name.as_str());
        if chars_eq_ignore_ascii_case(n.as_slice(), name) {
            proof {
                lemma_first_named_ci_prefix(v, name@, i as int + 1);
            }
            return Some(i);
        }
        i = i + 1;
    }
    assert(v.take(i as int) =~= v);
    None
}

proof fn lemma_first_named_ci_prefix(defs: Seq<(Seq<char>, Option<Seq<char>>)>, name: Seq<char>, n: int)
    requires
        0 <= n <= defs.len(),
        first_named_ci(defs.take(n), name) is Some,
    ensures
        first_named_ci(defs, name) == first_named_ci(defs.take(n), name),
    decreases defs.len() - n,
{
    if n < defs.len() {
        assert(defs.take(n + 1).drop_last() =~= defs.take(n));
        lemma_first_named_ci_prefix(defs, name, n + 1);
    } else {
        assert(defs.take(n) =~= defs);
    }
}

/// Where a reply's category lands: with no configured set, the trimmed
/// category is kept with its subcategory; with one, the abstain label (any
/// ASCII case) abstains, a configured name (any ASCII case) is stored under
/// its configured spelling without subcategory, and anything else is out
/// of set.
pub open spec fn resolution_of(
    category: Seq<char>,
    allowed: Option<Seq<(Seq<char>, Option<Seq<char>>)>>,
) -> (bool, bool, Seq<char>, bool) {
    let t = trim(category);
    match allowed {
        None => (false, false, t, true),
        Some(defs) => if eq_ignore_ascii_case(t, ABSTAIN_LABEL@) {
            (true, false, Seq::empty(), false)
        } else {
            match first_named_ci(defs, t) {
                Some(i) => (false, false, defs[i].0, false),
                None => (false, true, Seq::empty(), false),
            }
        },
    }
}

/// The resolution as (abstained, out of set, category, keep subcategory).
pub open spec fn resolution_view(r: CategoryResolution) -> (bool, bool, Seq<char>, bool) {
    match r {
        CategoryResolution::Abstained => (true, false, Seq::empty(), false),
        CategoryResolution::OutOfSet => (false, true, Seq::empty(), false),
        CategoryResolution::Accepted { category, keep_subcategory } => (false, false, category@, keep_subcategory),
    }
}

/// Check a reply's category against the configured set (fail closed):
/// see [`resolution_of`].
pub fn resolve_category(category: &str, allowed: Option<&[CategoryDef]>) -> (r: CategoryResolution)
    ensures
        resolution_view(r) == resolution_of(
            category@,
            match allowed {
                Some(a) => Some(defs_view(a@)),
                None => None,
            },
        ),
{
    let raw = chars_of(category);
    let t = trim_chars(raw.as_slice());
    match allowed {
        None => CategoryResolution::Accepted { category: string_from_chars(t.as_slice()), keep_subcategory: true },
        Some(defs) => {
            let label = chars_of(ABSTAIN_LABEL);
            if chars_eq_ignore_ascii_case(t.as_slice(), label.as_slice()) {
                return CategoryResolution::Abstained;
            }
            match find_named_ci(defs, t.as_slice()) {
                Some(i) => {
                    proof {
                        assert(defs_view(defs@)[i as int].0 == defs@[i as int].name@);
                    }
                    CategoryResolution::Accepted {
                        category: String::from_str(defs[i].name.as_str()),
                        keep_subcategory: false,
                    }
                },
                None => CategoryResolution::OutOfSet,
            }
        },
    }
}

/// Last position of `c` in `s`.
pub open spec fn last_index_of(s: Seq<char>, c: char) -> Option<int>
    decreases s.len(),
{
    if s.len() == 0 {
        None
    } else if s.last() == c {
        Some(s.len() - 1)
    } else {
        last_index_of(s.drop_last(), c)
    }
}

/// First position of `c` in `s`.
pub open spec fn first_index(s: Seq<char>, c: char) -> Option<int>
    decreases s.len(),
{
    if s.len() == 0 {
        None
    } else {
        match first_index(s.drop_last(), c) {
            Some(k) => Some(k),
            None => if s.last() == c {
                Some(s.len() - 1)
            } else {
                None
            },
        }
    }
}

/// The part of a reply that holds the JSON answer, namely the trimmed reply from
/// its first `{` to its last `}` when the first comes before the last,
/// the whole trimmed reply otherwise (a markdown fence or a sentence
/// around the object is dropped).
pub open spec fn verdict_span(text: Seq<char>) -> Seq<char> {
    let t = trim(text);
    match (first_index(t, '{'), last_index_of(t, '}')) {
        (Some(a), Some(b)) => if a < b {
            t.subrange(a, b + 1)
        } else {
            t
        },
        _ => t,
    }
}

proof fn lemma_first_index_prefix(s: Seq<char>, c: char, n: int)
    requires
        0 <= n <= s.len(),
        first_index(s.take(n), c) is Some,
    ensures
        first_index(s, c) == first_index(s.take(n), c),
    decreases s.len() - n,
{
    if n < s.len() {
        assert(s.take(n + 1).drop_last() =~= s.take(n));
        lemma_first_index_prefix(s, c, n + 1);
    } else {
        assert(s.take(n) =~= s);
    }
}

fn find_first(s: &[char], c: char) -> (r: Option<usize>)
    ensures
        r matches Some(i) ==> first_index(s@, c) == Some(i as int) && i < s.len(),
        r is None ==> first_index(s@, c) is None,
{
    let mut i: usize = 0;
    while i < s.len()
        invariant
            i <= s.len(),
            first_index(s@.take(i as int), c) is None,
        decreases s.len() - i,
    {
        proof {
            assert(s@.take(i as int + 1).drop_last() =~= s@.take(i as int));
        }
        if s[i] == c {
            proof {
                lemma_first_index_prefix(s@, c, i as int + 1);
            }
            return Some(i);
        }
        i = i + 1;
    }
    assert(s@.take(i as int) =~= s@);
    None
}

fn find_last(s: &[char], c: char) -> (r: Option<usize>)
    ensures
        r matches Some(i) ==> last_index_of(s@, c) == Some(i as int) && i < s.len(),
        r is None ==> last_index_of(s@, c) is None,
{
    let mut n: usize = s.len();
    assert(s@.take(n as int) =~= s@);
    while n > 0
        invariant
            n <= s.len(),
            last_index_of(s@, c) == last_index_of(s@.take(n as int), c),
        decreases n,
    {
        proof {
            assert(s@.take(n as int).drop_last() =~= s@.take(n as int - 1));
        }
        if s[n - 1] == c {
            return Some(n - 1);
        }
        n = n - 1;
    }
    None
}

/// The part of a model reply to parse as the JSON answer; see
/// [`verdict_span`].
pub fn reply_span(text: &str) -> (r: String)
    ensures
        r@ == verdict_span(text@),
{
    let raw = chars_of(text);
    let t = trim_chars(raw.as_slice());
    match (find_first(t.as_slice(), '{'), find_last(t.as_slice(), '}')) {
        (Some(a), Some(b)) => {
            if a < b {
                let span = slice_to_vec(t.as_slice(), a, b + 1);
                string_from_chars(span.as_slice())
            } else {
                string_from_chars(t.as_slice())
            }
        },
        _ => string_from_chars(t.as_slice()),
    }
}

proof fn lemma_first_named_ci(defs: Seq<(Seq<char>, Option<Seq<char>>)>, name: Seq<char>)
    ensures
        first_named_ci(defs, name) matches Some(k) ==> 0 <= k < defs.len() && eq_ignore_ascii_case(defs[k].0, name)
            && forall|j: int| 0 <= j < k ==> !eq_ignore_ascii_case(#[trigger] defs[j].0, name),
        first_named_ci(defs, name) is None ==> forall|j: int|
            0 <= j < defs.len() ==> !eq_ignore_ascii_case(#[trigger] defs[j].0, name),
    decreases defs.len(),
{
    if defs.len() > 0 {
        let d = defs.drop_last();
        lemma_first_named_ci(d, name);
        match first_named_ci(d, name) {
            Some(k) => {
                assert forall|j: int| 0 <= j < k implies !eq_ignore_ascii_case(#[trigger] defs[j].0, name) by {
                    assert(defs[j] == d[j]);
                    assert(!eq_ignore_ascii_case(d[j].0, name));
                }
                assert(defs[k] == d[k]);
            },
            None => {
                assert forall|j: int| 0 <= j < defs.len() - 1 implies !eq_ignore_ascii_case(#[trigger] defs[j].0, name) by {
                    assert(defs[j] == d[j]);
                    assert(!eq_ignore_ascii_case(d[j].0, name));
                }
            },
        }
    }
}

/// How the model's reply resolves with no category restriction: the
/// trimmed reply stands and the subcategory is kept.
pub proof fn lemma_unrestricted_reply(category: Seq<char>)
    ensures
        resolution_of(category, None) == (false, false, trim(category), true),
{
}

/// How the model's reply resolves against the allowed categories `defs`:
/// the abstain label `unclear` (any ASCII case, surrounding whitespace
/// trimmed) abstains; otherwise a reply naming an allowed category (ASCII
/// case ignored) resolves to the first such category's configured name, and
/// any other reply is out of the set. The subcategory is never kept.
pub proof fn lemma_restricted_reply(category: Seq<char>, defs: Seq<(Seq<char>, Option<Seq<char>>)>)
    ensures
        eq_ignore_ascii_case(trim(category), "unclear"@) ==> resolution_of(category, Some(defs)) == (
            true,
            false,
            Seq::<char>::empty(),
            false,
        ),
        !eq_ignore_ascii_case(trim(category), "unclear"@) ==> ({
            let r = resolution_of(category, Some(defs));
            &&& !r.0
            &&& !r.3
            &&& r.1 <==> forall|j: int| 0 <= j < defs.len() ==> !eq_ignore_ascii_case(#[trigger] defs[j].0, trim(category))
            &&& !r.1 ==> exists|k: int|
                0 <= k < defs.len() && r.2 == defs[k].0 && eq_ignore_ascii_case(defs[k].0, trim(category)) && forall|
                    j: int,
                | 0 <= j < k ==> !eq_ignore_ascii_case(#[trigger] defs[j].0, trim(category))
        }),
{
    lemma_first_named_ci(defs, trim(category));
    if let Some(k) = first_named_ci(defs, trim(category)) {
        assert(0 <= k < defs.len());
    }
}

} // verus!
