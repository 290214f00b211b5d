use vstd::prelude::*;
use crate::tree::clone_bytes;

verus! {

/// One entry found directly under the temporary location: its file name
/// and whether it is a directory.
pub struct TempEntry {
    pub name: Vec<u8>,
    pub is_dir: bool,
}

/// The fixed name prefix that marks a sandbox directory.
pub open spec fn sandbox_prefix() -> Seq<u8> {
    seq![116u8, 117u8, 115u8, 116u8, 45u8]
}

/// Whether `name` starts with the sandbox prefix.
pub open spec fn is_sandbox_name_spec(name: Seq<u8>) -> bool {
    name.len() >= 5 && name.subrange(0, 5) == sandbox_prefix()
}

/// Whether `name` starts with the sandbox prefix.
pub fn is_sandbox_name(name: &Vec<u8>) -> (r: bool)
    ensures
        r == is_sandbox_name_spec(name@),
{
    if name.len() < 5 {
        return false;
    }
    let r = name[0] == 116u8 && name[1] == 117u8 && name[2] == 115u8 && name[3] == 116u8
        && name[4] == 45u8;
    proof {
        let s = name@.subrange(0, 5);
        assert(s[0] == name@[0] && s[1] == name@[1] && s[2] == name@[2] && s[3] == name@[3]
            && s[4] == name@[4]);
        assert(sandbox_prefix()[0] == 116u8 && sandbox_prefix()[1] == 117u8
            && sandbox_prefix()[2] == 115u8 && sandbox_prefix()[3] == 116u8
            && sandbox_prefix()[4] == 45u8);
        if r {
            assert(s =~= sandbox_prefix());
        }
        if !r && s == sandbox_prefix() {
            assert(false);
        }
    }
    r
}

/// The names that a cleanup pass removes, in the order the entries were
/// listed: the directories whose name starts with the sandbox prefix.
pub open spec fn selected(entries: Seq<TempEntry>) -> Seq<Seq<u8>>
    decreases entries.len(),
{
    if entries.len() == 0 {
        Seq::empty()
    } else {
        let rest = selected(entries.drop_last());
        let e = entries.last();
        if e.is_dir && is_sandbox_name_spec(e.name@) {
            rest.push(e.name@)
        } else {
            rest
        }
    }
}

/// Cleanup touches exactly the sandbox directories: everything it selects
/// is a directory whose name starts with the sandbox prefix, and every
/// such directory is selected. All other entries are left alone.
pub proof fn lemma_selected_exact(entries: Seq<TempEntry>)
    ensures
        forall|k: int| 0 <= k < selected(entries).len()
            ==> exists|j: int| 0 <= j < entries.len() && entries[j].is_dir
                && is_sandbox_name_spec(entries[j].name@)
                && (#[trigger] selected(entries)[k]) == entries[j].name@,
        forall|j: int| 0 <= j < entries.len() && (#[trigger] entries[j]).is_dir
            && is_sandbox_name_spec(entries[j].name@)
            ==> selected(entries).contains(entries[j].name@),
    decreases entries.len(),
{
    if entries.len() > 0 {
        let prev = entries.drop_last();
        lemma_selected_exact(prev);
        let sel = selected(entries);
        let selp = selected(prev);
        assert forall|k: int| 0 <= k < sel.len() implies exists|j: int|
            0 <= j < entries.len() && entries[j].is_dir && is_sandbox_name_spec(entries[j].name@)
                && (#[trigger] sel[k]) == entries[j].name@ by {
            if k < selp.len() {
                let j = choose|j: int| 0 <= j < prev.len() && prev[j].is_dir
                    && is_sandbox_name_spec(prev[j].name@) && selp[k] == prev[j].name@;
                assert(entries[j] == prev[j]);
                assert(sel[k] == entries[j].name@);
            } else {
                assert(entries.last().is_dir && is_sandbox_name_spec(entries.last().name@));
                assert(sel[k] == entries[entries.len() - 1].name@);
            }
        }
        assert forall|j: int| 0 <= j < entries.len() && (#[trigger] entries[j]).is_dir
            && is_sandbox_name_spec(entries[j].name@)
            implies sel.contains(entries[j].name@) by {
            if j < entries.len() - 1 {
                assert(prev[j] == entries[j]);
                assert(selp.contains(entries[j].name@));
                let k = choose|k: int| 0 <= k < selp.len() && selp[k] == entries[j].name@;
                assert(sel[k] == entries[j].name@);
            } else {
                assert(sel.last() == entries[j].name@);
            }
        }
    }
}

/// Pick the entries a cleanup pass removes: the directories whose name
/// starts with the sandbox prefix, in listing order.
pub fn select_sandboxes(entries: &Vec<TempEntry>) -> (r: Vec<Vec<u8>>)
    ensures
        r@.map_values(|v: Vec<u8>| v@) == selected(entries@),
{
    let mut r: Vec<Vec<u8>> = Vec::new();
    let n = entries.len();
    let mut i: usize = 0;
    while i < n
        invariant
            n == entries@.len(),
            i <= n,
            r@.map_values(|v: Vec<u8>| v@) == selected(entries@.take(i as int)),
        decreases n - i,
    {
        let e = &entries[i];
        let ghost pre = entries@.take(i as int);
        proof {
            assert(entries@.take(i as int + 1).drop_last() =~= pre);
            assert(entries@.take(i as int + 1).last() == entries@[i as int]);
        }
        if e.is_dir && is_sandbox_name(&e.name) {
            r.push(clone_bytes(&e.name));
            proof {
                assert(r@.map_values(|v: Vec<u8>| v@)
                    =~= selected(pre).push(entries@[i as int].name@));
            }
        }
        i += 1;
    }
    proof {
        assert(entries@.take(n as int) =~= entries@);
    }
    r
}

/// How many attempted removals succeeded.
pub open spec fn count_true(s: Seq<bool>) -> nat
    decreases s.len(),
{
    if s.len() == 0 {
        0
    } else {
        count_true(s.drop_last()) + (if s.last() {
            1nat
        } else {
            0nat
        })
    }
}

/// Count the removals that succeeded: cleanup reports this number and goes
/// on past individual failures.
pub fn count_removed(results: &Vec<bool>) -> (n: usize)
    ensures
        n == count_true(results@),
{
    let mut n: usize = 0;
    let len = results.len();
    let mut i: usize = 0;
    while i < len
        invariant
            len == results@.len(),
            i <= len,
            n <= i,
            n == count_true(results@.take(i as int)),
        decreases len - i,
    {
        proof {
            assert(results@.take(i as int + 1).drop_last() =~= results@.take(i as int));
            assert(results@.take(i as int + 1).last() == results@[i as int]);
        }
        if results[i] {
            n = n + 1;
        }
        i += 1;
    }
    proof {
        assert(results@.take(len as int) =~= results@);
    }
    n
}

} // verus!
