//! Binary trees drawn at random.

use crate::binary::{AvlTree, BinaryTree};
use quickcheck::Gen;
use rand::Rng;
use vstd::prelude::*;

verus! {

/// Calls `Rng::gen_range` of rand on the generator. What is said of the
/// number that comes back is taken from rand and not proved here: it is
/// `low` or more and less than `high`, whatever the generator yields. The
/// call panics unless `low` is less than `high`.
#[verifier::external_body]
fn draw_between<G: Gen>(g: &mut G, low: i32, high: i32) -> (v: i32)
    requires
        low < high,
    ensures
        low <= v < high,
{
    g.gen_range(low, high)
}

/// Calls `Rng::gen` of rand on the generator, for a `bool`. Nothing is said
/// of the flag that comes back.
#[verifier::external_body]
fn draw_flag<G: Gen>(g: &mut G) -> bool {
    g.gen()
}

impl BinaryTree<i32, i32> {
    /// A tree of numbers from -1000 up to, not including, 1000. One number is
    /// drawn for the top, then a flag and one more number to put in, again
    /// and again until a flag says no (or `usize::MAX` numbers have gone in).
    pub fn arbitrary<G: Gen>(g: &mut G) -> (tree: Self)
        ensures
            tree.ordered(),
            forall|x: i32| #[trigger] tree@.contains(x) ==> -1000 <= x < 1000,
            exists|first: i32, more: Seq<i32>|
                {
                    &&& tree == #[trigger] AvlTree::grown(first, more)
                    &&& -1000 <= first < 1000
                    &&& forall|i: int| 0 <= i < more.len() ==> -1000 <= #[trigger] more[i] < 1000
                },
    {
        let first = draw_between(g, -1000, 1000);
        let mut tree = AvlTree::single(first);
        let ghost mut drawn: Seq<i32> = Seq::empty();
        let mut rounds: usize = usize::MAX;
        while rounds > 0 && draw_flag(g)
            invariant
                tree.ordered(),
                forall|x: i32| #[trigger] tree.values().contains(x) ==> -1000 <= x < 1000,
                tree == AvlTree::grown(first, drawn),
                -1000 <= first < 1000,
                forall|i: int| 0 <= i < drawn.len() ==> -1000 <= #[trigger] drawn[i] < 1000,
            decreases rounds,
        {
            let next = draw_between(g, -1000, 1000);
            tree.insert(next);
            rounds = rounds - 1;
            proof {
                assert(drawn.push(next).drop_last() =~= drawn);
                drawn = drawn.push(next);
            }
        }
        tree
    }
}

} // verus!
