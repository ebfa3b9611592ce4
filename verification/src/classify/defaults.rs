//! The built-in rule set.

use vstd::prelude::*;

verus! {

/// A classification rule as plain values: id, category, subcategory,
/// keywords, patterns, priority and confidence in hundredths.
pub type RuleView = (Seq<char>, Seq<char>, Option<Seq<char>>, Seq<Seq<char>>, Seq<Seq<char>>, i32, u32);

/// One classification rule.
#[derive(Clone, Debug)]
pub struct Rule {
    /// Unique rule identifier.
    pub id: String,
    /// Category (a subcategory name of the two-level taxonomy).
    pub category: String,
    /// Optional leaf label, more specific than `category`.
    pub subcategory: Option<String>,
    /// Keywords matched against the message (case-insensitive substring).
    pub keywords: Vec<String>,
    /// Regex patterns matched against the message.
    pub patterns: Vec<String>,
    /// Higher runs first.
    pub priority: i32,
    /// Confidence of a match, in hundredths (95 is 0.95).
    pub confidence_hundredths: u32,
}

/// A set of rules.
#[derive(Clone, Debug)]
pub struct RuleSet {
    /// Schema version.
    pub version: Option<String>,
    /// Whether the built-in rules stay in force beside these.
    pub extend_defaults: bool,
    /// The rules.
    pub rules: Vec<Rule>,
}

/// Strings by view.
pub open spec fn strings_view(v: Seq<String>) -> Seq<Seq<char>> {
    Seq::new(v.len(), |i: int| v[i]@)
}

/// A rule by view.
pub open spec fn rule_view(r: Rule) -> RuleView {
    (
        r.id@,
        r.category@,
        match r.subcategory {
            Some(s) => Some(s@),
            None => None,
        },
        strings_view(r.keywords@),
        strings_view(r.patterns@),
        r.priority,
        r.confidence_hundredths,
    )
}

/// The built-in rules: conventional-commit prefixes, the breaking-change
/// marker, JIRA-style tickets and keyword fallbacks.
pub open spec fn default_rule_views() -> Seq<RuleView> {
    seq![
        ("cc-feat"@, "feature"@, None, seq!["feat:"@, "feature:"@], seq!["(?i)^\\s*feat(\\([^)]*\\))?!?:"@], 100i32, 95u32),
        ("cc-fix"@, "bugfix"@, None, seq!["fix:"@, "bugfix:"@, "hotfix"@], seq!["(?i)^\\s*fix(\\([^)]*\\))?!?:"@], 100i32, 95u32),
        ("cc-chore"@, "chore"@, None, seq!["chore:"@], seq!["(?i)^\\s*chore(\\([^)]*\\))?!?:"@], 90i32, 90u32),
        ("cc-docs"@, "documentation"@, None, seq!["docs:"@, "doc:"@], seq!["(?i)^\\s*docs?(\\([^)]*\\))?!?:"@], 90i32, 90u32),
        ("cc-refactor"@, "refactor"@, None, seq!["refactor:"@], seq!["(?i)^\\s*refactor(\\([^)]*\\))?!?:"@], 90i32, 90u32),
        ("cc-test"@, "test"@, None, seq!["test:"@, "tests:"@], seq!["(?i)^\\s*tests?(\\([^)]*\\))?!?:"@], 90i32, 90u32),
        ("cc-ci"@, "ci"@, None, seq!["ci:"@], seq!["(?i)^\\s*ci(\\([^)]*\\))?!?:"@], 90i32, 90u32),
        ("cc-perf"@, "performance"@, None, seq!["perf:"@], seq!["(?i)^\\s*perf(\\([^)]*\\))?!?:"@], 90i32, 90u32),
        ("cc-style"@, "style"@, None, seq!["style:"@], seq!["(?i)^\\s*style(\\([^)]*\\))?!?:"@], 80i32, 85u32),
        ("cc-build"@, "build"@, None, seq!["build:"@], seq!["(?i)^\\s*build(\\([^)]*\\))?!?:"@], 80i32, 85u32),
        ("cc-revert"@, "revert"@, None, seq!["revert:"@], seq!["(?i)^\\s*revert(\\([^)]*\\))?!?:"@], 80i32, 90u32),
        ("breaking-change"@, "breaking"@, Some("api"@), seq!["breaking change"@, "breaking-change"@], seq!["(?i)breaking[\\s-]change"@], 110i32, 90u32),
        ("jira-ticket"@, "feature"@, Some("ticketed"@), seq![], seq!["\\b[A-Z][A-Z0-9]+-\\d+\\b"@], 50i32, 75u32),
        ("kw-bug"@, "bugfix"@, None, seq!["bug"@, "defect"@], seq![], 40i32, 70u32),
        ("kw-security"@, "bugfix"@, Some("security"@), seq!["security"@, "cve-"@, "vulnerability"@], seq![], 60i32, 85u32),
    ]
}

fn owned(xs: &[&str]) -> (v: Vec<String>)
    ensures
        strings_view(v@) == Seq::new(xs@.len(), |i: int| xs@[i]@),
{
    let mut v: Vec<String> = Vec::new();
    let mut i: usize = 0;
    while i < xs.len()
        invariant
            i <= xs.len(),
            v.len() == i,
            forall|q: int| 0 <= q < i ==> #[trigger] v@[q]@ == xs@[q]@,
        decreases xs.len() - i,
    {
        v.push(String::from_str(xs[i]));
        i = i + 1;
    }
    assert(strings_view(v@) =~= Seq::new(xs@.len(), |i: int| xs@[i]@));
    v
}

fn make_rule(
    id: &str,
    category: &str,
    subcategory: Option<&str>,
    keywords: &[&str],
    patterns: &[&str],
    priority: i32,
    confidence_hundredths: u32,
) -> (r: Rule)
    ensures
        rule_view(r) == (
            id@,
            category@,
            match subcategory {
                Some(s) => Some(s@),
                None => None,
            },
            Seq::new(keywords@.len(), |i: int| keywords@[i]@),
            Seq::new(patterns@.len(), |i: int| patterns@[i]@),
            priority,
            confidence_hundredths,
        ),
{
    Rule {
        id: String::from_str(id),
        category: String::from_str(category),
        subcategory: match subcategory {
            Some(s) => Some(String::from_str(s)),
            None => None,
        },
        keywords: owned(keywords),
        patterns: owned(patterns),
        priority,
        confidence_hundredths,
    }
}

/// The built-in rule set: version `1.0`, extending the defaults, holding
/// [`default_rule_views`].
pub fn default_rules() -> (r: RuleSet)
    ensures
        r.version matches Some(v) && v@ == "1.0"@,
        r.extend_defaults,
        r.rules.len() == default_rule_views().len(),
        forall|i: int| 0 <= i < r.rules.len() ==> rule_view(#[trigger] r.rules@[i]) == default_rule_views()[i],
{
    let mut rules: Vec<Rule> = Vec::new();
    {
        let keywords: [&str; 2] = ["feat:", "feature:"];
        let patterns: [&str; 1] = ["(?i)^\\s*feat(\\([^)]*\\))?!?:"];
        let r = make_rule("cc-feat", "feature", None, &keywords, &patterns, 100, 95);
        rules.push(r);
        proof {
            assert(rules@.len() == 1);
            assert(rule_view(rules@[0]) == default_rule_views()[0]);
        }
    }
    {
        let keywords: [&str; 3] = ["fix:", "bugfix:", "hotfix"];
        let patterns: [&str; 1] = ["(?i)^\\s*fix(\\([^)]*\\))?!?:"];
        let r = make_rule("cc-fix", "bugfix", None, &keywords, &patterns, 100, 95);
        rules.push(r);
        proof {
            assert(rules@.len() == 2);
            assert(rule_view(rules@[1]) == default_rule_views()[1]);
        }
    }
    {
        let keywords: [&str; 1] = ["chore:"];
        let patterns: [&str; 1] = ["(?i)^\\s*chore(\\([^)]*\\))?!?:"];
        let r = make_rule("cc-chore", "chore", None, &keywords, &patterns, 90, 90);
        rules.push(r);
        proof {
            assert(rules@.len() == 3);
            assert(rule_view(rules@[2]) == default_rule_views()[2]);
        }
    }
    {
        let keywords: [&str; 2] = ["docs:", "doc:"];
        let patterns: [&str; 1] = ["(?i)^\\s*docs?(\\([^)]*\\))?!?:"];
        let r = make_rule("cc-docs", "documentation", None, &keywords, &patterns, 90, 90);
        rules.push(r);
        proof {
            assert(rules@.len() == 4);
            assert(rule_view(rules@[3]) == default_rule_views()[3]);
        }
    }
    {
        let keywords: [&str; 1] = ["refactor:"];
        let patterns: [&str; 1] = ["(?i)^\\s*refactor(\\([^)]*\\))?!?:"];
        let r = make_rule("cc-refactor", "refactor", None, &keywords, &patterns, 90, 90);
        rules.push(r);
        proof {
            assert(rules@.len() == 5);
            assert(rule_view(rules@[4]) == default_rule_views()[4]);
        }
    }
    {
        let keywords: [&str; 2] = ["test:", "tests:"];
        let patterns: [&str; 1] = ["(?i)^\\s*tests?(\\([^)]*\\))?!?:"];
        let r = make_rule("cc-test", "test", None, &keywords, &patterns, 90, 90);
        rules.push(r);
        proof {
            assert(rules@.len() == 6);
            assert(rule_view(rules@[5]) == default_rule_views()[5]);
        }
    }
    {
        let keywords: [&str; 1] = ["ci:"];
        let patterns: [&str; 1] = ["(?i)^\\s*ci(\\([^)]*\\))?!?:"];
        let r = make_rule("cc-ci", "ci", None, &keywords, &patterns, 90, 90);
        rules.push(r);
        proof {
            assert(rules@.len() == 7);
            assert(rule_view(rules@[6]) == default_rule_views()[6]);
        }
    }
    {
        let keywords: [&str; 1] = ["perf:"];
        let patterns: [&str; 1] = ["(?i)^\\s*perf(\\([^)]*\\))?!?:"];
        let r = make_rule("cc-perf", "performance", None, &keywords, &patterns, 90, 90);
        rules.push(r);
        proof {
            assert(rules@.len() == 8);
            assert(rule_view(rules@[7]) == default_rule_views()[7]);
        }
    }
    {
        let keywords: [&str; 1] = ["style:"];
        let patterns: [&str; 1] = ["(?i)^\\s*style(\\([^)]*\\))?!?:"];
        let r = make_rule("cc-style", "style", None, &keywords, &patterns, 80, 85);
        rules.push(r);
        proof {
            assert(rules@.len() == 9);
            assert(rule_view(rules@[8]) == default_rule_views()[8]);
        }
    }
    {
        let keywords: [&str; 1] = ["build:"];
        let patterns: [&str; 1] = ["(?i)^\\s*build(\\([^)]*\\))?!?:"];
        let r = make_rule("cc-build", "build", None, &keywords, &patterns, 80, 85);
        rules.push(r);
        proof {
            assert(rules@.len() == 10);
            assert(rule_view(rules@[9]) == default_rule_views()[9]);
        }
    }
    {
        let keywords: [&str; 1] = ["revert:"];
        let patterns: [&str; 1] = ["(?i)^\\s*revert(\\([^)]*\\))?!?:"];
        let r = make_rule("cc-revert", "revert", None, &keywords, &patterns, 80, 90);
        rules.push(r);
        proof {
            assert(rules@.len() == 11);
            assert(rule_view(rules@[10]) == default_rule_views()[10]);
        }
    }
    {
        let keywords: [&str; 2] = ["breaking change", "breaking-change"];
        let patterns: [&str; 1] = ["(?i)breaking[\\s-]change"];
        let r = make_rule("breaking-change", "breaking", Some("api"), &keywords, &patterns, 110, 90);
        rules.push(r);
        proof {
            assert(rules@.len() == 12);
            assert(rule_view(rules@[11]) == default_rule_views()[11]);
        }
    }
    {
        let keywords: [&str; 0] = [];
        let patterns: [&str; 1] = ["\\b[A-Z][A-Z0-9]+-\\d+\\b"];
        let r = make_rule("jira-ticket", "feature", Some("ticketed"), &keywords, &patterns, 50, 75);
        rules.push(r);
        proof {
            assert(rules@.len() == 13);
            assert(rule_view(rules@[12]) == default_rule_views()[12]);
        }
    }
    {
        let keywords: [&str; 2] = ["bug", "defect"];
        let patterns: [&str; 0] = [];
        let r = make_rule("kw-bug", "bugfix", None, &keywords, &patterns, 40, 70);
        rules.push(r);
        proof {
            assert(rules@.len() == 14);
            assert(rule_view(rules@[13]) == default_rule_views()[13]);
        }
    }
    {
        let keywords: [&str; 3] = ["security", "cve-", "vulnerability"];
        let patterns: [&str; 0] = [];
        let r = make_rule("kw-security", "bugfix", Some("security"), &keywords, &patterns, 60, 85);
        rules.push(r);
        proof {
            assert(rules@.len() == 15);
            assert(rule_view(rules@[14]) == default_rule_views()[14]);
        }
    }
    RuleSet { version: Some(String::from_str("1.0")), extend_defaults: true, rules }
}

} // verus!
