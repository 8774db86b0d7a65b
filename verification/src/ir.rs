//! The intermediate representation that parsers fill and generators read.
use vstd::prelude::*;

use crate::json::Json;

verus! {

/// One `target: key=value` override, as text: (target, key, value).
pub type OverrideView = (Seq<char>, Seq<char>, Seq<char>);

/// The `(key, value)` pairs of the overrides in `trips` whose target is `t`,
/// in the order in which they were recorded.
pub open spec fn pairs_for(trips: Seq<OverrideView>, t: Seq<char>) -> Seq<(Seq<char>, Seq<char>)>
    decreases trips.len(),
{
    if trips.len() == 0 {
        Seq::empty()
    } else {
        let rest = pairs_for(trips.drop_last(), t);
        let last = trips.last();
        if last.0 == t {
            rest.push((last.1, last.2))
        } else {
            rest
        }
    }
}

/// The overrides in `trips` whose target is not `t`, in order.
pub open spec fn without_target(trips: Seq<OverrideView>, t: Seq<char>) -> Seq<OverrideView>
    decreases trips.len(),
{
    if trips.len() == 0 {
        Seq::empty()
    } else {
        let rest = without_target(trips.drop_last(), t);
        if trips.last().0 == t {
            rest
        } else {
            rest.push(trips.last())
        }
    }
}

/// The pairs `ps`, each recorded for target `t`.
pub open spec fn tag_pairs(t: Seq<char>, ps: Seq<(Seq<char>, Seq<char>)>) -> Seq<OverrideView>
    decreases ps.len(),
{
    if ps.len() == 0 {
        Seq::empty()
    } else {
        tag_pairs(t, ps.drop_last()).push((t, ps.last().0, ps.last().1))
    }
}

/// Per-target overrides (`cursor: alwaysApply=false`), kept in the order in
/// which they were read. Looking a target up gives its `(key, value)` pairs.
#[derive(Debug, Clone, PartialEq)]
pub struct TargetOverrides {
    entries: Vec<(String, String, String)>,
}

impl View for TargetOverrides {
    type V = Seq<OverrideView>;

    closed spec fn view(&self) -> Seq<OverrideView> {
        self.entries.deep_view()
    }
}

impl DeepView for TargetOverrides {
    type V = Seq<OverrideView>;

    open spec fn deep_view(&self) -> Seq<OverrideView> {
        self@
    }
}

impl Default for TargetOverrides {
    fn default() -> (res: Self)
        ensures
            res@ == Seq::<OverrideView>::empty(),
    {
        TargetOverrides::new()
    }
}

impl TargetOverrides {
    /// No overrides.
    pub fn new() -> (res: Self)
        ensures
            res@ == Seq::<OverrideView>::empty(),
    {
        let res = TargetOverrides { entries: Vec::new() };
        assert(res@ =~= Seq::<OverrideView>::empty());
        res
    }

    /// Records `target: key=value` after the overrides already held.
    pub fn push(&mut self, target: String, key: String, value: String)
        ensures
            final(self)@ == old(self)@.push((target@, key@, value@)),
    {
        self.entries.push((target, key, value));
        assert(self@ =~= old(self)@.push((target@, key@, value@)));
    }

    /// Replaces the pairs held for `target` by `pairs`.
    pub fn insert(&mut self, target: String, pairs: Vec<(String, String)>)
        ensures
            final(self)@ == without_target(old(self)@, target@) + tag_pairs(
                target@,
                pairs.deep_view(),
            ),
    {
        let mut kept: Vec<(String, String, String)> = Vec::new();
        let mut i: usize = 0;
        while i < self.entries.len()
            invariant
                i <= self.entries.len(),
                self.entries.deep_view() == old(self)@,
                kept.deep_view() == without_target(old(self)@.take(i as int), target@),
            decreases self.entries.len() - i,
        {
            let (t, k, v) = &self.entries[i];
            proof {
                assert(old(self)@.take(i + 1).drop_last() =~= old(self)@.take(i as int));
            }
            if !crate::text::str_eq(t.as_str(), target.as_str()) {
                kept.push((t.clone(), k.clone(), v.clone()));
                assert(kept.deep_view() =~= without_target(old(self)@.take(i + 1), target@));
            }
            i = i + 1;
        }
        assert(old(self)@.take(self.entries.len() as int) =~= old(self)@);
        let ghost base = kept.deep_view();
        let mut j: usize = 0;
        while j < pairs.len()
            invariant
                j <= pairs.len(),
                kept.deep_view() == base + tag_pairs(target@, pairs.deep_view().take(j as int)),
            decreases pairs.len() - j,
        {
            let (k, v) = &pairs[j];
            let ghost before = kept.deep_view();
            kept.push((target.clone(), k.clone(), v.clone()));
            assert(kept.deep_view() =~= before.push((target@, k@, v@)));
            assert(pairs.deep_view().take(j + 1).drop_last() =~= pairs.deep_view().take(j as int));
            assert(pairs.deep_view()[j as int] == (k@, v@));
            assert(kept.deep_view() =~= base + tag_pairs(target@, pairs.deep_view().take(j + 1)));
            j = j + 1;
        }
        assert(pairs.deep_view().take(pairs.len() as int) =~= pairs.deep_view());
        self.entries = kept;
    }

    /// The `(key, value)` pairs recorded for `target`, in order; `None` when
    /// there are none.
    pub fn get(&self, target: &str) -> (res: Option<Vec<(String, String)>>)
        ensures
            match res {
                Some(v) => pairs_for(self@, target@).len() > 0 && v.deep_view() == pairs_for(
                    self@,
                    target@,
                ),
                None => pairs_for(self@, target@).len() == 0,
            },
    {
        let mut out: Vec<(String, String)> = Vec::new();
        let mut i: usize = 0;
        while i < self.entries.len()
            invariant
                i <= self.entries.len(),
                out.deep_view() == pairs_for(self@.take(i as int), target@),
            decreases self.entries.len() - i,
        {
            let (t, k, v) = &self.entries[i];
            proof {
                assert(self@.take(i + 1).drop_last() =~= self@.take(i as int));
            }
            if crate::text::str_eq(t.as_str(), target) {
                out.push((k.clone(), v.clone()));
            }
            assert(out.deep_view() =~= pairs_for(self@.take(i + 1), target@));
            i = i + 1;
        }
        assert(self@.take(self.entries.len() as int) =~= self@);
        if out.len() == 0 {
            None
        } else {
            Some(out)
        }
    }

    /// Whether no override is held.
    pub fn is_empty(&self) -> (res: bool)
        ensures
            res == (self@.len() == 0),
    {
        self.entries.len() == 0
    }

    /// The number of overrides held.
    pub fn len(&self) -> (res: usize)
        ensures
            res == self@.len(),
    {
        self.entries.len()
    }
}

/// Where a section came from.
#[derive(Debug, Clone, Copy, PartialEq, Eq, Structural)]
pub enum SectionSource {
    ClaudeMd,
    Rules,
}

/// One rule: a `## ` section of the instructions file, or a rules file.
#[derive(Debug, Clone, PartialEq)]
pub struct Section {
    pub title: Option<String>,
    pub slug: String,
    pub body: String,
    pub source: SectionSource,
    pub target_overrides: TargetOverrides,
    pub description: Option<String>,
}

/// A section as text.
pub struct SectionView {
    pub title: Option<Seq<char>>,
    pub slug: Seq<char>,
    pub body: Seq<char>,
    pub source: SectionSource,
    pub overrides: Seq<OverrideView>,
    pub description: Option<Seq<char>>,
}

impl View for Section {
    type V = SectionView;

    open spec fn view(&self) -> SectionView {
        SectionView {
            title: self.title.deep_view(),
            slug: self.slug@,
            body: self.body@,
            source: self.source,
            overrides: self.target_overrides@,
            description: self.description.deep_view(),
        }
    }
}

impl DeepView for Section {
    type V = SectionView;

    open spec fn deep_view(&self) -> SectionView {
        self@
    }
}

/// A skill, read from a `<name>/SKILL.md` file.
#[derive(Debug, Clone, PartialEq)]
pub struct Skill {
    pub name: String,
    pub description: Option<String>,
    pub paths: Vec<String>,
    pub disable_model_invocation: bool,
    pub target_overrides: TargetOverrides,
    pub body: String,
}

/// A skill as text.
pub struct SkillView {
    pub name: Seq<char>,
    pub description: Option<Seq<char>>,
    pub paths: Seq<Seq<char>>,
    pub disable_model_invocation: bool,
    pub overrides: Seq<OverrideView>,
    pub body: Seq<char>,
}

impl View for Skill {
    type V = SkillView;

    open spec fn view(&self) -> SkillView {
        SkillView {
            name: self.name@,
            description: self.description.deep_view(),
            paths: self.paths.deep_view(),
            disable_model_invocation: self.disable_model_invocation,
            overrides: self.target_overrides@,
            body: self.body@,
        }
    }
}

impl DeepView for Skill {
    type V = SkillView;

    open spec fn deep_view(&self) -> SkillView {
        self@
    }
}

/// The MCP server table of `.mcp.json`, as JSON.
#[derive(Debug, Clone, PartialEq)]
pub struct McpConfig {
    pub servers: Json,
}

/// Everything read from the configuration of a project.
#[derive(Debug, Clone, PartialEq)]
pub struct ProjectConfig {
    pub sections: Vec<Section>,
    pub skills: Vec<Skill>,
    pub mcp: Option<McpConfig>,
}

} // verus!
