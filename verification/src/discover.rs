//! The configuration files found in a project.
use vstd::prelude::*;

use crate::path::{lemma_path_le_total, lemma_path_le_trans, path_le, path_le_exec};

verus! {

/// The paths of the configuration files of a project: the instructions
/// file, the rules files, the skill files and `.mcp.json`.
#[derive(Debug, Clone, Default)]
pub struct Sources {
    pub claude_md: Option<String>,
    pub rules: Vec<String>,
    pub skills: Vec<String>,
    pub mcp_json: Option<String>,
}

impl Sources {
    /// Whether no configuration file was found, so that there is nothing to
    /// sync.
    pub fn is_empty(&self) -> (res: bool)
        ensures
            res == (self.claude_md is None && self.rules@.len() == 0 && self.skills@.len() == 0
                && self.mcp_json is None),
    {
        self.claude_md.is_none() && self.rules.len() == 0 && self.skills.len() == 0
            && self.mcp_json.is_none()
    }
}

/// Whether `s` is in that order.
pub open spec fn paths_sorted(s: Seq<Seq<char>>) -> bool {
    forall|i: int, j: int| 0 <= i < j < s.len() ==> path_le(#[trigger] s[i], #[trigger] s[j])
}

/// The paths in the order of `std::path::Path` (component by component),
/// each as often as it was given.
pub fn sorted_paths(paths: Vec<String>) -> (res: Vec<String>)
    ensures
        paths_sorted(res.deep_view()),
        res.deep_view().to_multiset() == paths.deep_view().to_multiset(),
{
    broadcast use vstd::seq_lib::group_to_multiset_ensures;

    let ghost input = paths.deep_view();
    let mut out: Vec<String> = Vec::new();
    let mut i: usize = 0;
    assert(input.take(0) =~= Seq::<Seq<char>>::empty());
    assert(out.deep_view() =~= Seq::<Seq<char>>::empty());
    while i < paths.len()
        invariant
            i <= paths.len(),
            input == paths.deep_view(),
            paths_sorted(out.deep_view()),
            out.deep_view().to_multiset() == input.take(i as int).to_multiset(),
        decreases paths.len() - i,
    {
        let x = paths[i].clone();
        let ghost ov = out.deep_view();
        let mut j: usize = 0;
        while j < out.len() && path_le_exec(out[j].as_str(), x.as_str())
            invariant
                j <= out.len(),
                ov == out.deep_view(),
                forall|k: int| 0 <= k < j ==> path_le(#[trigger] ov[k], x@),
            decreases out.len() - j,
        {
            j = j + 1;
        }
        proof {
            if j < out.len() {
                lemma_path_le_total(ov[j as int], x@);
            }
            assert forall|m: int| j <= m < ov.len() implies path_le(x@, #[trigger] ov[m]) by {
                if m > j {
                    assert(path_le(ov[j as int], ov[m]));
                    lemma_path_le_trans(x@, ov[j as int], ov[m]);
                }
            }
        }
        out.insert(j, x);
        let ghost nv = out.deep_view();
        assert(nv =~= ov.insert(j as int, x@));
        proof {
            assert forall|a: int, b: int| 0 <= a < b < nv.len() implies path_le(
                #[trigger] nv[a],
                #[trigger] nv[b],
            ) by {
                if b == j {
                } else if a == j {
                    assert(path_le(x@, ov[b - 1]));
                } else if a < j && b > j {
                    assert(path_le(x@, ov[b - 1]));
                    lemma_path_le_trans(ov[a], x@, ov[b - 1]);
                } else if a > j {
                    assert(path_le(ov[a - 1], ov[b - 1]));
                } else {
                    assert(path_le(ov[a], ov[b]));
                }
            }
            vstd::seq_lib::to_multiset_insert(ov, j as int, x@);
            assert(input.take(i + 1) =~= input.take(i as int).push(input[i as int]));
            assert(input[i as int] == x@);
            vstd::seq_lib::to_multiset_build(input.take(i as int), x@);
        }
        i = i + 1;
    }
    assert(input.take(paths.len() as int) =~= input);
    out
}

} // verus!
