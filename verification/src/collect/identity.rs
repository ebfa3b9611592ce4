//! Developer identity resolution.
//!
//! A raw `(name, email)` pair seen in a commit resolves to a canonical
//! identity in tiers: an exact alias on the lower-cased e-mail, then on the
//! lower-cased name, each leading to a team member by name; then a fuzzy
//! match against the members, whose similarity scores are computed outside
//! this module and handed in as the index of the best-scoring member; and
//! otherwise the pair itself.

use vstd::prelude::*;
use crate::config::{TeamConfig, TeamMember};
use crate::text::{chars_eq_ignore_ascii_case, chars_of, eq_ignore_ascii_case, str_eq, to_lowercase, unicode_lowercase};

verus! {

/// A `(String, String)` pair by view.
pub open spec fn pair_view(p: (String, String)) -> (Seq<char>, Seq<char>) {
    (p.0@, p.1@)
}

/// A list of pairs by view.
pub open spec fn pairs_view(s: Seq<(String, String)>) -> Seq<(Seq<char>, Seq<char>)> {
    s.map_values(|p: (String, String)| pair_view(p))
}

/// Free-form alias entries with their keys lower-cased.
pub open spec fn lowered_aliases(s: Seq<(String, String)>) -> Seq<(Seq<char>, Seq<char>)> {
    s.map_values(|p: (String, String)| (unicode_lowercase(p.0@), p.1@))
}

/// Aliases of one name, lower-cased, each leading to `name`.
pub open spec fn aliases_to(list: Seq<String>, name: Seq<char>) -> Seq<(Seq<char>, Seq<char>)> {
    list.map_values(|a: String| (unicode_lowercase(a@), name))
}

/// Team members as `(name, email)` pairs.
pub open spec fn member_pairs(ms: Seq<TeamMember>) -> Seq<(Seq<char>, Seq<char>)> {
    ms.map_values(|m: TeamMember| (m.name@, m.email@))
}

proof fn lemma_pairs_view_push(s: Seq<(String, String)>, x: (String, String))
    ensures
        pairs_view(s.push(x)) == pairs_view(s).push(pair_view(x)),
{
    assert(pairs_view(s.push(x)) =~= pairs_view(s).push(pair_view(x)));
}

proof fn lemma_lowered_aliases_push(s: Seq<(String, String)>, x: (String, String))
    ensures
        lowered_aliases(s.push(x)) == lowered_aliases(s).push((unicode_lowercase(x.0@), x.1@)),
{
    assert(lowered_aliases(s.push(x)) =~= lowered_aliases(s).push((unicode_lowercase(x.0@), x.1@)));
}

proof fn lemma_aliases_to_push(s: Seq<String>, x: String, name: Seq<char>)
    ensures
        aliases_to(s.push(x), name) == aliases_to(s, name).push((unicode_lowercase(x@), name)),
{
    assert(aliases_to(s.push(x), name) =~= aliases_to(s, name).push((unicode_lowercase(x@), name)));
}

proof fn lemma_member_pairs_push(s: Seq<TeamMember>, x: TeamMember)
    ensures
        member_pairs(s.push(x)) == member_pairs(s).push((x.name@, x.email@)),
{
    assert(member_pairs(s.push(x)) =~= member_pairs(s).push((x.name@, x.email@)));
}

/// The canonical name an alias table gives `key`: the last entry for it
/// wins, as a later insert replaces an earlier one.
pub open spec fn lookup_alias(entries: Seq<(Seq<char>, Seq<char>)>, key: Seq<char>) -> Option<Seq<char>>
    decreases entries.len(),
{
    if entries.len() == 0 {
        None
    } else if entries.last().0 == key {
        Some(entries.last().1)
    } else {
        lookup_alias(entries.drop_last(), key)
    }
}

/// The first member whose canonical name equals `name`, ASCII case ignored.
pub open spec fn member_named(members: Seq<(Seq<char>, Seq<char>)>, name: Seq<char>) -> Option<
    (Seq<char>, Seq<char>),
>
    decreases members.len(),
{
    if members.len() == 0 {
        None
    } else if eq_ignore_ascii_case(members[0].0, name) {
        Some(members[0])
    } else {
        member_named(members.drop_first(), name)
    }
}

/// The member an alias key leads to, if any.
pub open spec fn member_by_alias(
    aliases: Seq<(Seq<char>, Seq<char>)>,
    members: Seq<(Seq<char>, Seq<char>)>,
    key: Seq<char>,
) -> Option<(Seq<char>, Seq<char>)> {
    match lookup_alias(aliases, key) {
        Some(canon) => member_named(members, canon),
        None => None,
    }
}

/// The exact tiers: an alias on the lower-cased e-mail, then one on the
/// lower-cased name.
pub open spec fn exact_identity(
    aliases: Seq<(Seq<char>, Seq<char>)>,
    members: Seq<(Seq<char>, Seq<char>)>,
    name: Seq<char>,
    email: Seq<char>,
) -> Option<(Seq<char>, Seq<char>)> {
    match member_by_alias(aliases, members, unicode_lowercase(email)) {
        Some(m) => Some(m),
        None => member_by_alias(aliases, members, unicode_lowercase(name)),
    }
}

/// The alias entries one team member registers: each of its aliases, then
/// its canonical e-mail, all lower-cased and leading to its name.
pub open spec fn member_alias_entries(m: TeamMember) -> Seq<(Seq<char>, Seq<char>)> {
    aliases_to(m.aliases@, m.name@).push(
        (unicode_lowercase(m.email@), m.name@),
    )
}

/// The alias entries of a member list, member by member.
pub open spec fn members_alias_entries(ms: Seq<TeamMember>) -> Seq<(Seq<char>, Seq<char>)>
    decreases ms.len(),
{
    if ms.len() == 0 {
        Seq::empty()
    } else {
        members_alias_entries(ms.drop_last()) + member_alias_entries(ms.last())
    }
}

/// The alias table built from a team: its free-form aliases, lower-cased,
/// then each member's entries.
pub open spec fn team_alias_entries(team: TeamConfig) -> Seq<(Seq<char>, Seq<char>)> {
    lowered_aliases(team.aliases@) + members_alias_entries(team.members@)
}

/// The first alias that holds an `@`, taken as the canonical e-mail; empty
/// when there is none.
pub open spec fn first_email(list: Seq<String>) -> Seq<char>
    decreases list.len(),
{
    if list.len() == 0 {
        Seq::empty()
    } else if list[0]@.contains('@') {
        list[0]@
    } else {
        first_email(list.drop_first())
    }
}

/// The alias entries of one canonical name and its alias list: the name
/// itself, its canonical e-mail when there is one, then every alias, all
/// lower-cased and leading to the name.
pub open spec fn canon_entries(canon: Seq<char>, list: Seq<String>) -> Seq<(Seq<char>, Seq<char>)> {
    let email = first_email(list);
    seq![(unicode_lowercase(canon), canon)] + (if email.len() > 0 {
        seq![(unicode_lowercase(email), canon)]
    } else {
        Seq::empty()
    }) + aliases_to(list, canon)
}

/// The alias table built from a `canonical name -> aliases` map walked in
/// the given order.
pub open spec fn alias_map_entries(map: Seq<(String, Vec<String>)>) -> Seq<(Seq<char>, Seq<char>)>
    decreases map.len(),
{
    if map.len() == 0 {
        Seq::empty()
    } else {
        alias_map_entries(map.drop_last()) + canon_entries(map.last().0@, map.last().1@)
    }
}

/// Resolves observed author identities to canonical `(name, email)` pairs.
pub struct IdentityResolver {
    /// Alias (lower-cased name or e-mail) to canonical name, in insertion
    /// order.
    aliases: Vec<(String, String)>,
    /// Canonical members: `(canonical_name, canonical_email)`.
    members: Vec<(String, String)>,
}

impl IdentityResolver {
    /// The alias table, in insertion order.
    pub closed spec fn alias_entries(&self) -> Seq<(Seq<char>, Seq<char>)> {
        pairs_view(self.aliases@)
    }

    /// The canonical members, in order.
    pub closed spec fn member_entries(&self) -> Seq<(Seq<char>, Seq<char>)> {
        pairs_view(self.members@)
    }

    /// A resolver for `team`: its members, and an alias table of its
    /// free-form aliases followed by each member's aliases and canonical
    /// e-mail. With no team it knows no one.
    pub fn new(team: Option<&TeamConfig>) -> (r: Self)
        ensures
            r.alias_entries() == match team {
                Some(t) => team_alias_entries(*t),
                None => Seq::empty(),
            },
            r.member_entries() == match team {
                Some(t) => member_pairs(t.members@),
                None => Seq::empty(),
            },
    {
        let mut aliases: Vec<(String, String)> = Vec::new();
        let mut members: Vec<(String, String)> = Vec::new();
        match team {
            None => {},
            Some(t) => {
                let mut i: usize = 0;
                while i < t.aliases.len()
                    invariant
                        i <= t.aliases.len(),
                        pairs_view(aliases@) == lowered_aliases(t.aliases@.take(i as int)),
                    decreases t.aliases.len() - i,
                {
                    let key = to_lowercase(t.aliases[i].0.as_str());
                    let value = String::from_str(t.aliases[i].1.as_str());
                    let ghost prev = aliases@;
                    aliases.push((key, value));
                    proof {
                        lemma_pairs_view_push(prev, (key, value));
                        assert(t.aliases@.take(i as int + 1) =~= t.aliases@.take(i as int).push(
                            t.aliases@[i as int],
                        ));
                        lemma_lowered_aliases_push(t.aliases@.take(i as int), t.aliases@[i as int]);
                    }
                    i = i + 1;
                }
                let ghost head = pairs_view(aliases@);
                assert(t.aliases@.take(t.aliases.len() as int) =~= t.aliases@);
                let mut j: usize = 0;
                assert(members_alias_entries(t.members@.take(0)) =~= Seq::<(Seq<char>, Seq<char>)>::empty());
                while j < t.members.len()
                    invariant
                        j <= t.members.len(),
                        pairs_view(aliases@) == head + members_alias_entries(t.members@.take(j as int)),
                        pairs_view(members@) == member_pairs(t.members@.take(j as int)),
                    decreases t.members.len() - j,
                {
                    let m = &t.members[j];
                    let ghost before = pairs_view(aliases@);
                    let ghost prev_members = members@;
                    let pair = (String::from_str(m.name.as_str()), String::from_str(m.email.as_str()));
                    members.push(pair);
                    proof {
                        lemma_pairs_view_push(prev_members, pair);
                    }
                    let mut k: usize = 0;
                    while k < m.aliases.len()
                        invariant
                            k <= m.aliases.len(),
                            pairs_view(aliases@) == before + aliases_to(m.aliases@.take(k as int), m.name@),
                        decreases m.aliases.len() - k,
                    {
                        let key = to_lowercase(m.aliases[k].as_str());
                        let entry = (key, String::from_str(m.name.as_str()));
                        let ghost prev = aliases@;
                        aliases.push(entry);
                        proof {
                            lemma_pairs_view_push(prev, entry);
                            assert(m.aliases@.take(k as int + 1) =~= m.aliases@.take(k as int).push(
                                m.aliases@[k as int],
                            ));
                            lemma_aliases_to_push(m.aliases@.take(k as int), m.aliases@[k as int], m.name@);
                        }
                        k = k + 1;
                    }
                    let key = to_lowercase(m.email.as_str());
                    let entry = (key, String::from_str(m.name.as_str()));
                    let ghost prev = aliases@;
                    aliases.push(entry);
                    proof {
                        lemma_pairs_view_push(prev, entry);
                        assert(m.aliases@.take(m.aliases.len() as int) =~= m.aliases@);
                        assert(t.members@.take(j as int + 1) =~= t.members@.take(j as int).push(
                            t.members@[j as int],
                        ));
                        assert(t.members@.take(j as int + 1).drop_last() =~= t.members@.take(j as int));
                        lemma_member_pairs_push(t.members@.take(j as int), t.members@[j as int]);
                    }
                    j = j + 1;
                }
                assert(t.members@.take(t.members.len() as int) =~= t.members@);
            },
        }
        proof {
            if team is None {
                assert(pairs_view(aliases@) =~= Seq::<(Seq<char>, Seq<char>)>::empty());
                assert(pairs_view(members@) =~= Seq::<(Seq<char>, Seq<char>)>::empty());
            }
        }
        IdentityResolver { aliases, members }
    }
    /// A resolver from a `canonical name -> aliases` map walked in the given
    /// order. Each name becomes a member whose e-mail is its first alias
    /// holding an `@` (empty when none does), and registers itself, that
    /// e-mail and every alias.
    pub fn from_alias_map(map: &[(String, Vec<String>)]) -> (r: Self)
        ensures
            r.alias_entries() == alias_map_entries(map@),
            r.member_entries() == map@.map_values(|e: (String, Vec<String>)| (e.0@, first_email(e.1@))),
    {
        let mut aliases: Vec<(String, String)> = Vec::new();
        let mut members: Vec<(String, String)> = Vec::new();
        let mut i: usize = 0;
        assert(alias_map_entries(map@.take(0)) =~= Seq::<(Seq<char>, Seq<char>)>::empty());
        while i < map.len()
            invariant
                i <= map.len(),
                pairs_view(aliases@) == alias_map_entries(map@.take(i as int)),
                pairs_view(members@) == map@.take(i as int).map_values(
                    |e: (String, Vec<String>)| (e.0@, first_email(e.1@)),
                ),
            decreases map.len() - i,
        {
            let canon = &map[i].0;
            let list = &map[i].1;
            let email = first_email_of(list);
            let ghost before = pairs_view(aliases@);
            let ghost prev = aliases@;
            let entry = (to_lowercase(canon.as_str()), String::from_str(canon.as_str()));
            aliases.push(entry);
            proof {
                lemma_pairs_view_push(prev, entry);
            }
            if email.as_str().unicode_len() > 0 {
                let ghost prev = aliases@;
                let entry = (to_lowercase(email.as_str()), String::from_str(canon.as_str()));
                aliases.push(entry);
                proof {
                    lemma_pairs_view_push(prev, entry);
                }
            }
            let ghost mid = pairs_view(aliases@);
            assert(mid == before + seq![(unicode_lowercase(canon@), canon@)] + (if email@.len() > 0 {
                seq![(unicode_lowercase(email@), canon@)]
            } else {
                Seq::empty()
            }));
            let mut k: usize = 0;
            assert(aliases_to(list@.take(0), canon@) =~= Seq::<(Seq<char>, Seq<char>)>::empty());
            while k < list.len()
                invariant
                    k <= list.len(),
                    pairs_view(aliases@) == mid + aliases_to(list@.take(k as int), canon@),
                decreases list.len() - k,
            {
                let ghost prev = aliases@;
                let entry = (to_lowercase(list[k].as_str()), String::from_str(canon.as_str()));
                aliases.push(entry);
                proof {
                    lemma_pairs_view_push(prev, entry);
                    assert(list@.take(k as int + 1) =~= list@.take(k as int).push(list@[k as int]));
                    lemma_aliases_to_push(list@.take(k as int), list@[k as int], canon@);
                }
                k = k + 1;
            }
            let ghost prev_members = members@;
            let pair = (String::from_str(canon.as_str()), email);
            members.push(pair);
            proof {
                lemma_pairs_view_push(prev_members, pair);
                assert(list@.take(list.len() as int) =~= list@);
                assert(map@.take(i as int + 1).drop_last() =~= map@.take(i as int));
                assert(map@.take(i as int + 1).last() == map@[i as int]);
                assert(pairs_view(aliases@) =~= alias_map_entries(map@.take(i as int + 1)));
                assert(pairs_view(members@) =~= map@.take(i as int + 1).map_values(
                    |e: (String, Vec<String>)| (e.0@, first_email(e.1@)),
                ));
            }
            i = i + 1;
        }
        assert(map@.take(map.len() as int) =~= map@);
        IdentityResolver { aliases, members }
    }

    /// The canonical members, `(name, email)`, in order.
    pub fn members(&self) -> (m: &Vec<(String, String)>)
        ensures
            pairs_view(m@) == self.member_entries(),
    {
        &self.members
    }

    /// Index of the entry that gives `key` its canonical name: the last
    /// one for it.
    fn alias_target(&self, key: &str) -> (r: Option<usize>)
        ensures
            match r {
                Some(k) => k < self.aliases@.len() && lookup_alias(self.alias_entries(), key@) == Some(
                    self.aliases@[k as int].1@,
                ),
                None => lookup_alias(self.alias_entries(), key@) is None,
            },
    {
        let ghost entries = self.alias_entries();
        let mut i: usize = self.aliases.len();
        assert(entries.take(i as int) =~= entries);
        while i > 0
            invariant
                i <= self.aliases.len(),
                entries == pairs_view(self.aliases@),
                lookup_alias(entries, key@) == lookup_alias(entries.take(i as int), key@),
            decreases i,
        {
            proof {
                assert(entries.take(i as int).drop_last() =~= entries.take(i as int - 1));
                assert(entries.take(i as int).last() == pair_view(self.aliases@[i - 1]));
            }
            if str_eq(self.aliases[i - 1].0.as_str(), key) {
                return Some(i - 1);
            }
            i = i - 1;
        }
        None
    }

    /// The first member named `name`, ASCII case ignored.
    fn find_member_by_name(&self, name: &str) -> (r: Option<(String, String)>)
        ensures
            match r {
                Some(p) => member_named(self.member_entries(), name@) == Some(pair_view(p)),
                None => member_named(self.member_entries(), name@) is None,
            },
    {
        let ghost ms = self.member_entries();
        let target = chars_of(name);
        let mut i: usize = 0;
        assert(ms.skip(0) =~= ms);
        while i < self.members.len()
            invariant
                i <= self.members.len(),
                ms == pairs_view(self.members@),
                target@ == name@,
                member_named(ms, name@) == member_named(ms.skip(i as int), name@),
            decreases self.members.len() - i,
        {
            proof {
                assert(ms.skip(i as int).drop_first() =~= ms.skip(i as int + 1));
                assert(ms.skip(i as int)[0] == pair_view(self.members@[i as int]));
            }
            let candidate = chars_of(self.members[i].0.as_str());
            if chars_eq_ignore_ascii_case(candidate.as_slice(), target.as_slice()) {
                let m = &self.members[i];
                return Some((String::from_str(m.0.as_str()), String::from_str(m.1.as_str())));
            }
            i = i + 1;
        }
        assert(ms.skip(i as int) =~= Seq::<(Seq<char>, Seq<char>)>::empty());
        None
    }

    /// The member an alias key leads to.
    fn member_by_alias(&self, key: &str) -> (r: Option<(String, String)>)
        ensures
            match r {
                Some(p) => member_by_alias(self.alias_entries(), self.member_entries(), key@) == Some(
                    pair_view(p),
                ),
                None => member_by_alias(self.alias_entries(), self.member_entries(), key@) is None,
            },
    {
        match self.alias_target(key) {
            Some(k) => self.find_member_by_name(self.aliases[k].1.as_str()),
            None => None,
        }
    }

    /// Resolve a raw `(name, email)` pair to canonical form: an alias on
    /// the lower-cased e-mail, then on the lower-cased name, leading to a
    /// member; otherwise the member `fuzzy` names, the best similarity
    /// match above the threshold when there is one; otherwise the input
    /// unchanged.
    pub fn resolve(&self, name: &str, email: &str, fuzzy: Option<usize>) -> (r: (String, String))
        requires
            fuzzy matches Some(i) ==> i < self.member_entries().len(),
        ensures
            pair_view(r) == match exact_identity(self.alias_entries(), self.member_entries(), name@, email@) {
                Some(m) => m,
                None => match fuzzy {
                    Some(i) => self.member_entries()[i as int],
                    None => (name@, email@),
                },
            },
    {
        let email_lc = to_lowercase(email);
        let name_lc = to_lowercase(name);
        match self.member_by_alias(email_lc.as_str()) {
            Some(m) => { return m; },
            None => {},
        }
        match self.member_by_alias(name_lc.as_str()) {
            Some(m) => { return m; },
            None => {},
        }
        match fuzzy {
            Some(i) => {
                let m = &self.members[i];
                (String::from_str(m.0.as_str()), String::from_str(m.1.as_str()))
            },
            None => (String::from_str(name), String::from_str(email)),
        }
    }
}

/// The first alias holding an `@`, or an empty string.
fn first_email_of(list: &Vec<String>) -> (e: String)
    ensures
        e@ == first_email(list@),
{
    let mut i: usize = 0;
    assert(list@.skip(0) =~= list@);
    while i < list.len()
        invariant
            i <= list.len(),
            first_email(list@) == first_email(list@.skip(i as int)),
        decreases list.len() - i,
    {
        proof {
            assert(list@.skip(i as int).drop_first() =~= list@.skip(i as int + 1));
            assert(list@.skip(i as int)[0] == list@[i as int]);
        }
        if has_at(list[i].as_str()) {
            return String::from_str(list[i].as_str());
        }
        i = i + 1;
    }
    assert(list@.skip(i as int) =~= Seq::<String>::empty());
    String::new()
}

/// Whether `s` holds an `@`.
fn has_at(s: &str) -> (r: bool)
    ensures
        r == s@.contains('@'),
{
    let cs = chars_of(s);
    let mut i: usize = 0;
    while i < cs.len()
        invariant
            i <= cs.len(),
            cs@ == s@,
            forall|k: int| 0 <= k < i ==> cs@[k] != '@',
        decreases cs.len() - i,
    {
        if cs[i] == '@' {
            return true;
        }
        i = i + 1;
    }
    false
}

/// An alias table reads back what was last written for a key: after
/// adding `key -> canon`, `key` leads to `canon`, and every other key
/// leads where it led before.
pub proof fn lemma_last_alias_wins(
    entries: Seq<(Seq<char>, Seq<char>)>,
    key: Seq<char>,
    canon: Seq<char>,
    other: Seq<char>,
)
    ensures
        lookup_alias(entries.push((key, canon)), key) == Some(canon),
        other != key ==> lookup_alias(entries.push((key, canon)), other) == lookup_alias(entries, other),
{
    assert(entries.push((key, canon)).drop_last() =~= entries);
}

/// The member a name finds is a member whose canonical name equals it
/// ignoring ASCII case, and the first such; no member is found only when
/// none has that name.
pub proof fn lemma_member_named(members: Seq<(Seq<char>, Seq<char>)>, name: Seq<char>)
    ensures
        member_named(members, name) matches Some(m) ==> exists|i: int|
            0 <= i < members.len() && members[i] == m && eq_ignore_ascii_case(m.0, name) && forall|j: int|
                0 <= j < i ==> !eq_ignore_ascii_case(#[trigger] members[j].0, name),
        member_named(members, name) is None ==> forall|j: int|
            0 <= j < members.len() ==> !eq_ignore_ascii_case(#[trigger] members[j].0, name),
    decreases members.len(),
{
    if members.len() > 0 && !eq_ignore_ascii_case(members[0].0, name) {
        let rest = members.drop_first();
        lemma_member_named(rest, name);
        match member_named(rest, name) {
            Some(m) => {
                let i = choose|i: int|
                    0 <= i < rest.len() && rest[i] == m && eq_ignore_ascii_case(m.0, name) && forall|j: int|
                        0 <= j < i ==> !eq_ignore_ascii_case(#[trigger] rest[j].0, name);
                assert(members[i + 1] == rest[i]);
                assert forall|j: int| 0 <= j < i + 1 implies !eq_ignore_ascii_case(#[trigger] members[j].0, name) by {
                    if j > 0 {
                        assert(members[j] == rest[j - 1]);
                    }
                }
            },
            None => {
                assert forall|j: int| 0 <= j < members.len() implies !eq_ignore_ascii_case(
                    #[trigger] members[j].0,
                    name,
                ) by {
                    if j > 0 {
                        assert(members[j] == rest[j - 1]);
                    }
                }
            },
        }
    } else if members.len() > 0 {
        assert(members[0] == members[0]);
    }
}

/// The exact tiers try the lower-cased e-mail first: when it leads to a
/// member, that member is the identity whatever the name says; only
/// otherwise does the lower-cased name decide.
pub proof fn lemma_email_alias_first(
    aliases: Seq<(Seq<char>, Seq<char>)>,
    members: Seq<(Seq<char>, Seq<char>)>,
    name: Seq<char>,
    email: Seq<char>,
)
    ensures
        member_by_alias(aliases, members, unicode_lowercase(email)) is Some ==> exact_identity(
            aliases,
            members,
            name,
            email,
        ) == member_by_alias(aliases, members, unicode_lowercase(email)),
        member_by_alias(aliases, members, unicode_lowercase(email)) is None ==> exact_identity(
            aliases,
            members,
            name,
            email,
        ) == member_by_alias(aliases, members, unicode_lowercase(name)),
{
}

} // verus!
