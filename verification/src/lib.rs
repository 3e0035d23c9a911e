use vstd::prelude::*;

pub mod zort;

use rand::Rng;
use zort::{merge_seq, preserves_rank, sorted_by_rank, Decider, Ranker, Zort};

verus! {

/// One heritable unit: an innovation identifier marking the historical
/// mutation event it arose from, an enabled flag, and an opaque payload.
/// A gene never changes once created; an encompassing genome decides whether
/// to keep or drop it.
pub struct Gene<T> {
    pub innovation: usize,
    pub enabled: bool,
    pub phene: T,
}

impl<T> Gene<T> {
    pub fn new(innovation: usize, enabled: bool, phene: T) -> (g: Gene<T>)
        ensures
            g.innovation == innovation,
            g.enabled == enabled,
            g.phene == phene,
    {
        Gene { innovation, enabled, phene }
    }
}

/// Ranks a gene by its innovation identifier: the merge key of every splice.
pub struct InnovationRanker;

impl<T> Ranker<Gene<T>> for InnovationRanker {
    open spec fn spec_rank(&self, item: Gene<T>) -> usize {
        item.innovation
    }

    fn rank(&self, item: &Gene<T>) -> (r: usize) {
        item.innovation
    }
}

/// The process-wide source of innovation identifiers and of the shared
/// randomness that mutation decisions draw from. One is created per
/// evolutionary run; every genome derived from that run draws from it.
pub struct Platter {
    pub innovation: usize,
    pub rng: rand::rngs::ThreadRng,
}

#[verifier::external_type_specification]
#[verifier::external_body]
pub struct ExThreadRng(rand::rngs::ThreadRng);

/// Relies on rand::thread_rng: a handle to the thread-local generator.
#[verifier::external_body]
fn fresh_rng() -> rand::rngs::ThreadRng {
    rand::thread_rng()
}

impl Platter {
    pub fn new() -> (p: Platter)
        ensures
            p.innovation == 0,
    {
        Platter { innovation: 0, rng: fresh_rng() }
    }

    /// One draw from the shared random generator: the hook that a future
    /// mutation policy consumes. Relies on rand::Rng::gen for u64; nothing is
    /// promised of the value drawn.
    #[verifier::external_body]
    pub fn rand(&mut self) -> (r: u64)
        ensures
            final(self).innovation == old(self).innovation,
    {
        self.rng.gen()
    }
}

/// The payloads of the enabled genes of `s`, in order: the phenotype view of
/// a gene sequence. Disabled genes contribute nothing.
pub open spec fn enabled_phenes<T>(s: Seq<Gene<T>>) -> Seq<T>
    decreases s.len(),
{
    if s.len() == 0 {
        Seq::empty()
    } else if s[0].enabled {
        seq![s[0].phene] + enabled_phenes(s.drop_first())
    } else {
        enabled_phenes(s.drop_first())
    }
}

/// One individual's genetic encoding: a sequence of genes, well-formed when
/// it is strictly increasing by innovation identifier — so no identifier
/// appears twice.
pub struct Genome<T> {
    pub genes: Vec<Gene<T>>,
}

impl<T> Genome<T> {
    /// The genome's invariant: genes in strictly increasing innovation order.
    pub open spec fn wf(self) -> bool {
        sorted_by_rank(InnovationRanker, self.genes@)
    }

    pub fn new() -> (g: Genome<T>)
        ensures
            g.genes@ == Seq::<Gene<T>>::empty(),
    {
        Genome { genes: Vec::new() }
    }

    /// The default tie-break of a splice: of two genes with one innovation
    /// identifier, the left parent's gene survives.
    pub fn bias(left: Gene<T>, _right: Gene<T>) -> (r: Gene<T>)
        ensures
            r == left,
    {
        left
    }

    /// Appends a gene, drawing once from the shared randomness source: the
    /// per-gene mutation hook. What the draw means for the gene is left to a
    /// future mutation policy, so the gene is appended unchanged.
    pub fn push(&mut self, platter: &mut Platter, gene: Gene<T>, _mutation: u64)
        ensures
            final(self).genes@ == old(self).genes@.push(gene),
            final(platter).innovation == old(platter).innovation,
    {
        let _draw = platter.rand();
        self.genes.push(gene);
    }

    /// Splices two parent genomes into a child: their gene sequences are
    /// merged by innovation order with the drain-both trail policy, a
    /// collision of innovation identifiers keeps exactly the gene that `bias`
    /// picks, and each merged gene passes through the mutation hook. When
    /// both parents are well-formed and `bias` keeps the innovation
    /// identifier of a collision, the child is well-formed — whatever
    /// `mutation` is.
    pub fn splice<D: Decider<Gene<T>>>(
        platter: &mut Platter,
        left: Genome<T>,
        right: Genome<T>,
        bias: D,
        mutation: u64,
    ) -> (child: Genome<T>)
        ensures
            child.genes@ == merge_seq(InnovationRanker, bias, 0, left.genes@, right.genes@),
            final(platter).innovation == old(platter).innovation,
            left.wf() && right.wf() && preserves_rank(InnovationRanker, bias) ==> child.wf(),
    {
        let ghost left_genes = left.genes@;
        let ghost right_genes = right.genes@;
        let mut child = Genome::new();
        let mut merge = Zort::new(left.genes, right.genes, InnovationRanker, bias, 0);
        loop
            invariant
                merge.ranker == InnovationRanker,
                merge.decider == bias,
                merge.trail == 0usize,
                child.genes@ + merge.remaining() == merge_seq(
                    InnovationRanker,
                    bias,
                    0,
                    left_genes,
                    right_genes,
                ),
                platter.innovation == old(platter).innovation,
            ensures
                child.genes@ == merge_seq(InnovationRanker, bias, 0, left_genes, right_genes),
                platter.innovation == old(platter).innovation,
            decreases merge.a@.len() + merge.b@.len(),
        {
            match merge.next() {
                Some(gene) => {
                    let ghost genes_before = child.genes@;
                    child.push(platter, gene, mutation);
                    proof {
                        assert(child.genes@ + merge.remaining() =~= genes_before + (seq![gene]
                            + merge.remaining()));
                    }
                },
                None => {
                    proof {
                        assert(child.genes@ + merge.remaining() =~= child.genes@);
                    }
                    break ;
                },
            }
        }
        proof {
            if left.wf() && right.wf() && preserves_rank(InnovationRanker, bias) {
                zort::lemma_merge_sorted(InnovationRanker, bias, 0, left_genes, right_genes);
            }
        }
        child
    }

    /// Projects the genome to its phenotype: the payloads of exactly the
    /// enabled genes, in innovation order. Disabled genes stay behind in the
    /// genome but are excluded here.
    pub fn collect(self) -> (phenes: Vec<T>)
        ensures
            phenes@ == enabled_phenes(self.genes@),
    {
        let ghost all_genes = self.genes@;
        let mut genes = self.genes;
        let mut phenes: Vec<T> = Vec::new();
        while genes.len() > 0
            invariant
                phenes@ + enabled_phenes(genes@) == enabled_phenes(all_genes),
            decreases genes.len(),
        {
            let ghost pending = genes@;
            let gene = genes.remove(0);
            proof {
                assert(genes@ =~= pending.drop_first());
            }
            if gene.enabled {
                let ghost phenes_before = phenes@;
                phenes.push(gene.phene);
                proof {
                    assert(phenes@ + enabled_phenes(genes@) =~= phenes_before + (seq![gene.phene]
                        + enabled_phenes(genes@)));
                }
            }
        }
        proof {
            assert(phenes@ + enabled_phenes(genes@) =~= phenes@);
        }
        phenes
    }
}

} // verus!

