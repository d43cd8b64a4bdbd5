//! Paths of a tree: byte strings whose components stand between slashes.

use vstd::prelude::*;

verus! {

/// The place of the first slash in `path`, or the length of `path` where it
/// has none.
pub open spec fn first_slash(path: Seq<u8>) -> int
    decreases path.len(),
{
    if path.len() == 0 {
        0
    } else if path[0] == 47 {
        0
    } else {
        1 + first_slash(path.skip(1))
    }
}

/// The components of `path`: what stands before the first slash, between
/// each two slashes, and behind the last slash. A path without a slash, the
/// empty one too, is one component.
pub open spec fn components(path: Seq<u8>) -> Seq<Seq<u8>>
    decreases path.len(),
{
    let at = first_slash(path);
    if 0 <= at < path.len() {
        seq![path.take(at)] + components(path.skip(at + 1))
    } else {
        seq![path]
    }
}

/// The components put together again, with a slash between each two.
pub open spec fn joined(components: Seq<Seq<u8>>) -> Seq<u8>
    decreases components.len(),
{
    if components.len() == 0 {
        Seq::empty()
    } else if components.len() == 1 {
        components[0]
    } else {
        components[0] + seq![47u8] + joined(components.skip(1))
    }
}

/// The components as plain values.
pub open spec fn component_views(components: Seq<Vec<u8>>) -> Seq<Seq<u8>> {
    components.map_values(|component: Vec<u8>| component@)
}

/// The first slash stands within the path or at its end; no slash stands
/// before it; and where it stands within the path, a slash stands there.
proof fn lemma_first_slash_bounds(path: Seq<u8>)
    ensures
        0 <= first_slash(path) <= path.len(),
        forall|k: int| 0 <= k < first_slash(path) ==> path[k] != 47,
        first_slash(path) < path.len() ==> path[first_slash(path)] == 47,
    decreases path.len(),
{
    if path.len() > 0 && path[0] != 47 {
        let rest = path.skip(1);
        lemma_first_slash_bounds(rest);
        assert forall|k: int| 0 <= k < first_slash(path) implies path[k] != 47 by {
            if k > 0 {
                assert(rest[k - 1] == path[k]);
            }
        }
        if first_slash(path) < path.len() {
            assert(rest[first_slash(rest)] == path[first_slash(path)]);
        }
    }
}

/// The first slash stands at `at` where no slash stands before `at` and one
/// stands there, or the path ends there.
proof fn lemma_first_slash_is(path: Seq<u8>, at: int)
    requires
        0 <= at <= path.len(),
        forall|k: int| 0 <= k < at ==> path[k] != 47,
        at == path.len() || path[at] == 47,
    ensures
        first_slash(path) == at,
    decreases at,
{
    if at > 0 {
        let rest = path.skip(1);
        assert forall|k: int| 0 <= k < at - 1 implies rest[k] != 47 by {
            assert(rest[k] == path[k + 1]);
        }
        if at < path.len() {
            assert(rest[at - 1] == path[at]);
        }
        lemma_first_slash_is(rest, at - 1);
    }
}

/// No component holds a slash; there is at least one component; and the
/// components, put together with slashes, are the path.
pub proof fn lemma_components(path: Seq<u8>)
    ensures
        components(path).len() >= 1,
        joined(components(path)) == path,
        forall|i: int, k: int|
            0 <= i < components(path).len() && 0 <= k < components(path)[i].len()
                ==> #[trigger] components(path)[i][k] != 47,
    decreases path.len(),
{
    lemma_first_slash_bounds(path);
    let at = first_slash(path);
    if at < path.len() {
        let rest = path.skip(at + 1);
        lemma_components(rest);
        let all = components(path);
        assert(all.skip(1) =~= components(rest));
        assert(all[0] == path.take(at));
        assert(path.take(at) + seq![47u8] + rest =~= path);
        assert forall|i: int, k: int|
            0 <= i < all.len() && 0 <= k < all[i].len() implies #[trigger] all[i][k] != 47 by {
            if i > 0 {
                assert(all[i] == components(rest)[i - 1]);
            }
        }
    }
}

/// Splits `path` into its components.
pub fn path_components(path: &[u8]) -> (r: Vec<Vec<u8>>)
    ensures
        component_views(r@) == components(path@),
{
    let ghost all = components(path@);
    let mut out: Vec<Vec<u8>> = Vec::new();
    let mut current: Vec<u8> = Vec::new();
    let mut start: usize = 0;
    let mut pos: usize = 0;
    assert(path@.skip(0) =~= path@);
    assert(component_views(out@) + components(path@) =~= components(path@));
    assert(path@.subrange(0, 0) =~= Seq::<u8>::empty());
    while pos < path.len()
        invariant
            start <= pos <= path.len(),
            all == components(path@),
            all == component_views(out@) + components(path@.skip(start as int)),
            current@ == path@.subrange(start as int, pos as int),
            forall|k: int| start <= k < pos ==> path@[k] != 47,
        decreases path.len() - pos,
    {
        if path[pos] == 47 {
            proof {
                let rest = path@.skip(start as int);
                let at = pos - start;
                assert forall|k: int| 0 <= k < at implies rest[k] != 47 by {
                    assert(rest[k] == path@[start + k]);
                }
                assert(rest[at] == path@[pos as int]);
                lemma_first_slash_is(rest, at);
                assert(rest.take(at) =~= current@);
                assert(rest.skip(at + 1) =~= path@.skip(pos + 1));
                assert(component_views(out@.push(current)) =~= component_views(out@).push(
                    current@,
                ));
                assert(component_views(out@) + (seq![rest.take(at)] + components(
                    rest.skip(at + 1),
                )) =~= component_views(out@).push(current@) + components(path@.skip(pos + 1)));
            }
            out.push(current);
            current = Vec::new();
            start = pos + 1;
            assert(path@.subrange(start as int, start as int) =~= Seq::<u8>::empty());
        } else {
            current.push(path[pos]);
            assert(path@.subrange(start as int, pos + 1) =~= path@.subrange(
                start as int,
                pos as int,
            ).push(path@[pos as int]));
        }
        pos += 1;
    }
    proof {
        let rest = path@.skip(start as int);
        assert forall|k: int| 0 <= k < rest.len() implies rest[k] != 47 by {
            assert(rest[k] == path@[start + k]);
        }
        lemma_first_slash_is(rest, rest.len() as int);
        assert(rest =~= current@);
        assert(component_views(out@.push(current)) =~= component_views(out@).push(current@));
        assert(component_views(out@) + seq![rest] =~= component_views(out@).push(current@));
    }
    out.push(current);
    out
}

} // verus!
