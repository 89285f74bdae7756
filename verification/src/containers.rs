//! Which objects a ray is inside of, along the objects it meets in order: the bookkeeping that
//! picks the materials on either side of a hit.

use vstd::prelude::*;

verus! {

/// `c` without the first occurrence of `id`.
pub open spec fn without_first(c: Seq<usize>, id: usize) -> Seq<usize>
    decreases c.len(),
{
    if c.len() == 0 {
        c
    } else if c[0] == id {
        c.drop_first()
    } else {
        seq![c[0]] + without_first(c.drop_first(), id)
    }
}

/// The objects the ray is inside of after meeting `id`: it leaves `id` if it was inside it,
/// and otherwise enters it, last.
pub open spec fn toggled(c: Seq<usize>, id: usize) -> Seq<usize> {
    if c.contains(id) {
        without_first(c, id)
    } else {
        c.push(id)
    }
}

/// The objects the ray is inside of, in the order it entered them, after meeting the first `k`
/// of the objects `ids`.
pub open spec fn containers(ids: Seq<usize>, k: nat) -> Seq<usize>
    decreases k,
{
    if k == 0 {
        seq![]
    } else {
        toggled(containers(ids, (k - 1) as nat), ids[k - 1])
    }
}

/// The object entered last, if any.
pub open spec fn innermost(c: Seq<usize>) -> Option<usize> {
    if c.len() == 0 {
        None
    } else {
        Some(c.last())
    }
}

proof fn lemma_without_first_at(c: Seq<usize>, id: usize, j: int)
    requires
        0 <= j < c.len(),
        c[j] == id,
        forall|m: int| 0 <= m < j ==> c[m] != id,
    ensures
        without_first(c, id) == c.remove(j),
    decreases c.len(),
{
    if j == 0 {
        assert(c.remove(0) =~= c.drop_first());
    } else {
        lemma_without_first_at(c.drop_first(), id, j - 1);
        assert(seq![c[0]] + c.drop_first().remove(j - 1) =~= c.remove(j));
    }
}

/// Meeting an object the ray is inside of removes that object from the containers, and keeps
/// every other one in the order it was entered.
pub proof fn lemma_toggled_leaves(c: Seq<usize>, id: usize, j: int)
    requires
        0 <= j < c.len(),
        c[j] == id,
        forall|m: int| 0 <= m < j ==> c[m] != id,
    ensures
        toggled(c, id) == c.remove(j),
        toggled(c, id).len() == c.len() - 1,
        forall|m: int| 0 <= m < j ==> #[trigger] toggled(c, id)[m] == c[m],
        forall|m: int| j <= m < c.len() - 1 ==> #[trigger] toggled(c, id)[m] == c[m + 1],
{
    assert(c.contains(id));
    lemma_without_first_at(c, id, j);
}

/// Meeting an object the ray is not inside of enters it: it comes last, after all the others.
pub proof fn lemma_toggled_enters(c: Seq<usize>, id: usize)
    requires
        !c.contains(id),
    ensures
        toggled(c, id) == c.push(id),
        innermost(toggled(c, id)) == Some(id),
{
}

/// The ray is inside each object at most once.
pub proof fn lemma_containers_distinct(ids: Seq<usize>, k: nat)
    ensures
        containers(ids, k).no_duplicates(),
    decreases k,
{
    if k > 0 {
        let c = containers(ids, (k - 1) as nat);
        let id = ids[k - 1];
        lemma_containers_distinct(ids, (k - 1) as nat);
        if c.contains(id) {
            let j = choose|j: int| 0 <= j < c.len() && c[j] == id;
            assert forall|m: int| 0 <= m < j implies c[m] != id by {
                if c[m] == id {
                    assert(c[m] == c[j]);
                }
            }
            lemma_toggled_leaves(c, id, j);
            let r = toggled(c, id);
            assert forall|a: int, b: int| 0 <= a < r.len() && 0 <= b < r.len() && a != b implies r[a]
                != r[b] by {
                let a1 = if a < j { a } else { a + 1 };
                let b1 = if b < j { b } else { b + 1 };
                assert(r[a] == c[a1]);
                assert(r[b] == c[b1]);
            }
        } else {
            let r = c.push(id);
            assert forall|a: int, b: int| 0 <= a < r.len() && 0 <= b < r.len() && a != b implies r[a]
                != r[b] by {
                if a < c.len() && b < c.len() {
                    assert(r[a] == c[a] && r[b] == c[b]);
                } else if a < c.len() {
                    assert(r[a] == c[a]);
                } else if b < c.len() {
                    assert(r[b] == c[b]);
                }
            }
        }
    }
}

fn toggle(c: &mut Vec<usize>, id: usize)
    ensures
        final(c)@ == toggled(old(c)@, id),
{
    let mut j: usize = 0;
    while j < c.len()
        invariant
            j <= c.len(),
            c@ == old(c)@,
            forall|m: int| 0 <= m < j ==> c@[m] != id,
        decreases c.len() - j,
    {
        if c[j] == id {
            proof {
                lemma_without_first_at(c@, id, j as int);
                assert(c@.contains(id));
            }
            c.remove(j);
            return;
        }
        j = j + 1;
    }
    assert(!c@.contains(id));
    c.push(id);
}

/// The objects entered last before and after a hit, given the objects that a ray meets in
/// order (by index) and the position of the hit among them: the ray leaves an object it is
/// inside of and enters any other.
pub fn refraction_sides(ids: &Vec<usize>, hit: usize) -> (res: (Option<usize>, Option<usize>))
    requires
        hit < ids.len(),
    ensures
        res.0 == innermost(containers(ids@, hit as nat)),
        res.1 == innermost(containers(ids@, (hit + 1) as nat)),
{
    let mut c: Vec<usize> = Vec::new();
    let mut i: usize = 0;
    while i < hit
        invariant
            i <= hit < ids.len(),
            c@ == containers(ids@, i as nat),
        decreases hit - i,
    {
        toggle(&mut c, ids[i]);
        i = i + 1;
    }
    let before = if c.len() == 0 {
        None
    } else {
        Some(c[c.len() - 1])
    };
    toggle(&mut c, ids[hit]);
    let after = if c.len() == 0 {
        None
    } else {
        Some(c[c.len() - 1])
    };
    (before, after)
}

} // verus!
