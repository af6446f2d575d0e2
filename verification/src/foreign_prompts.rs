//! The prompts that attributions name but a set of virtual attributions lacks, and adding
//! those found elsewhere.

use vstd::prelude::*;
use vstd::string::*;

use crate::authorship_log::{PromptRecord, PromptView};
use crate::text::str_eq;
use crate::virtual_attribution::{FileAttributions, VirtualAttributions};

verus! {

/// Whether some character attribution of the files names author `id`.
pub open spec fn names_author(fs: Seq<FileAttributions>, id: Seq<char>) -> bool {
    exists|i: int, k: int|
        0 <= i < fs.len() && 0 <= k < fs[i].char_attributions@.len() && (#[trigger] fs[i].char_attributions@[k]).author_id@
            == id
}

/// The prompts after inserting each loaded prompt in turn, later ones winning.
pub open spec fn with_loaded(m: Map<Seq<char>, PromptView>, loaded: Seq<(String, PromptRecord)>) -> Map<
    Seq<char>,
    PromptView,
>
    decreases loaded.len(),
{
    if loaded.len() == 0 {
        m
    } else {
        with_loaded(m, loaded.drop_last()).insert(loaded.last().0@, loaded.last().1@)
    }
}

/// Whether `s` holds `id` among its first `n` strings.
fn holds_id(s: &Vec<String>, id: &str) -> (r: bool)
    ensures
        r == exists|k: int| 0 <= k < s@.len() && (#[trigger] s@[k])@ == id@,
{
    let mut k: usize = 0;
    while k < s.len()
        invariant
            k <= s.len(),
            forall|j: int| 0 <= j < k ==> (#[trigger] s@[j])@ != id@,
        decreases s.len() - k,
    {
        if str_eq(s[k].as_str(), id) {
            return true;
        }
        k = k + 1;
    }
    false
}

impl VirtualAttributions {
    /// The authors that the character attributions name and the prompts lack, each once.
    pub fn missing_prompt_ids(&self) -> (r: Vec<String>)
        ensures
            forall|a: int, b: int| 0 <= a < b < r@.len() ==> (#[trigger] r@[a])@ != (#[trigger] r@[b])@,
            forall|k: int|
                0 <= k < r@.len() ==> names_author(self.attributions@, (#[trigger] r@[k])@) && !self.prompts@.contains_key(
                    r@[k]@,
                ),
            forall|id: Seq<char>|
                names_author(self.attributions@, id) && !self.prompts@.contains_key(id) ==> exists|k: int|
                    0 <= k < r@.len() && (#[trigger] r@[k])@ == id,
    {
        let ghost fs = self.attributions@;
        let mut r: Vec<String> = Vec::new();
        let mut i: usize = 0;
        while i < self.attributions.len()
            invariant
                i <= self.attributions.len(),
                fs == self.attributions@,
                forall|a: int, b: int| 0 <= a < b < r@.len() ==> (#[trigger] r@[a])@ != (#[trigger] r@[b])@,
                forall|k: int|
                    0 <= k < r@.len() ==> names_author(fs, (#[trigger] r@[k])@) && !self.prompts@.contains_key(r@[k]@),
                forall|f: int, j: int|
                    0 <= f < i && 0 <= j < fs[f].char_attributions@.len() && !self.prompts@.contains_key(
                        (#[trigger] fs[f].char_attributions@[j]).author_id@,
                    ) ==> exists|k: int| 0 <= k < r@.len() && (#[trigger] r@[k])@ == fs[f].char_attributions@[j].author_id@,
            decreases self.attributions.len() - i,
        {
            let attrs = &self.attributions[i].char_attributions;
            let mut j: usize = 0;
            while j < attrs.len()
                invariant
                    i < fs.len(),
                    fs == self.attributions@,
                    attrs == fs[i as int].char_attributions,
                    j <= attrs.len(),
                    forall|a: int, b: int| 0 <= a < b < r@.len() ==> (#[trigger] r@[a])@ != (#[trigger] r@[b])@,
                    forall|k: int|
                        0 <= k < r@.len() ==> names_author(fs, (#[trigger] r@[k])@) && !self.prompts@.contains_key(
                            r@[k]@,
                        ),
                    forall|f: int, jj: int|
                        (0 <= f < i && 0 <= jj < fs[f].char_attributions@.len() || f == i && 0 <= jj < j)
                            && !self.prompts@.contains_key((#[trigger] fs[f].char_attributions@[jj]).author_id@)
                            ==> exists|k: int|
                            0 <= k < r@.len() && (#[trigger] r@[k])@ == fs[f].char_attributions@[jj].author_id@,
                decreases attrs.len() - j,
            {
                let id = attrs[j].author_id.as_str();
                proof {
                    assert(fs[i as int].char_attributions@[j as int] == attrs@[j as int]);
                }
                if !self.prompts.contains_key(id) && !holds_id(&r, id) {
                    let ghost prev = r@;
                    r.push(attrs[j].author_id.clone());
                    proof {
                        assert(names_author(fs, id@)) by {
                            assert(fs[i as int].char_attributions@[j as int].author_id@ == id@);
                        }
                        assert forall|f: int, jj: int|
                            (0 <= f < i && 0 <= jj < fs[f].char_attributions@.len() || f == i && 0 <= jj < j + 1)
                                && !self.prompts@.contains_key((#[trigger] fs[f].char_attributions@[jj]).author_id@)
                                implies exists|k: int|
                            0 <= k < r@.len() && (#[trigger] r@[k])@ == fs[f].char_attributions@[jj].author_id@ by {
                            if f == i && jj == j {
                                assert(r@[prev.len() as int]@ == id@);
                            } else {
                                let k = choose|k: int|
                                    0 <= k < prev.len() && (#[trigger] prev[k])@ == fs[f].char_attributions@[jj].author_id@;
                                assert(r@[k] == prev[k]);
                            }
                        }
                    }
                }
                j = j + 1;
            }
            i = i + 1;
        }
        proof {
            assert forall|id: Seq<char>|
                names_author(fs, id) && !self.prompts@.contains_key(id) implies exists|k: int|
                0 <= k < r@.len() && (#[trigger] r@[k])@ == id by {
                let (f, jj) = choose|f: int, jj: int|
                    0 <= f < fs.len() && 0 <= jj < fs[f].char_attributions@.len() && (#[trigger] fs[f].char_attributions@[jj]).author_id@
                        == id;
                assert(!self.prompts@.contains_key(fs[f].char_attributions@[jj].author_id@));
            }
        }
        r
    }

    /// Adds prompts found elsewhere, each in turn, a later one replacing an earlier one with
    /// the same id.
    pub fn add_loaded_prompts(&mut self, loaded: Vec<(String, PromptRecord)>)
        ensures
            final(self).prompts@ == with_loaded(old(self).prompts@, loaded@),
            final(self).attributions@ == old(self).attributions@,
            final(self).file_contents@ == old(self).file_contents@,
            final(self).base_commit == old(self).base_commit,
            final(self).ts == old(self).ts,
    {
        let ghost lv = loaded@;
        let mut loaded = loaded;
        let mut rest: Vec<(String, PromptRecord)> = Vec::new();
        while loaded.len() > 0
            invariant
                lv == loaded@ + rest@.reverse(),
                self.prompts@ == old(self).prompts@,
                self.attributions@ == old(self).attributions@,
                self.file_contents@ == old(self).file_contents@,
                self.base_commit == old(self).base_commit,
                self.ts == old(self).ts,
            decreases loaded.len(),
        {
            let e = loaded.pop().unwrap();
            let ghost before = rest@;
            rest.push(e);
            proof {
                assert(rest@.reverse() =~= seq![e] + before.reverse());
            }
        }
        let mut i: usize = 0;
        let n = rest.len();
        proof {
            assert(loaded@ =~= Seq::<(String, PromptRecord)>::empty());
            assert(lv =~= rest@.reverse());
            assert(lv.take(0) =~= Seq::<(String, PromptRecord)>::empty());
        }
        while rest.len() > 0
            invariant
                n == lv.len(),
                rest@.len() + i == n,
                rest@.reverse() == lv.skip(i as int),
                self.prompts@ == with_loaded(old(self).prompts@, lv.take(i as int)),
                self.attributions@ == old(self).attributions@,
                self.file_contents@ == old(self).file_contents@,
                self.base_commit == old(self).base_commit,
                self.ts == old(self).ts,
            decreases rest.len(),
        {
            let ghost before = rest@;
            let (id, prompt) = rest.pop().unwrap();
            proof {
                assert(before.reverse()[0] == before.last());
                assert(lv.skip(i as int)[0] == lv[i as int]);
                assert(lv.take(i + 1).drop_last() =~= lv.take(i as int));
                assert(rest@.reverse() =~= lv.skip(i + 1)) by {
                    assert(before.reverse().drop_first() =~= rest@.reverse());
                    assert(lv.skip(i as int).drop_first() =~= lv.skip(i + 1));
                }
            }
            self.prompts.insert(id, prompt);
            i = i + 1;
        }
        proof {
            assert(lv.take(n as int) =~= lv);
        }
    }
}

} // verus!
