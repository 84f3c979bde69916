//! A dataset with its tree, both as they are and compressed, and the queries with which
//! search over the two forms is compared.

use vstd::prelude::*;
use vstd::laws_eq::obeys_concrete_eq;
use crate::cluster::Ball;
use crate::codec_data::{copy_instance, readable, CodecData, Entry};
use crate::dataset::Dataset;
use crate::error::ClamError;
use crate::metric::Codec;
use crate::partition::build_tree;
use crate::rnn::Hit;
use crate::row_major::RowMajor;
use crate::search::{lemma_search_equivalence, Algorithm};
use crate::squishy::{
    all_encodable,
    from_ball_tree,
    lemma_same_shape_wf,
    same_shape,
    SquishyBall,
};
use crate::validate::{same_instances, shapes_match};

verus! {

/// Says whether `hits` holds `h`.
fn holds(hits: &Vec<Hit>, h: Hit) -> (b: bool)
    ensures
        b == hits@.contains(h),
{
    let mut j: usize = 0;
    while j < hits.len()
        invariant
            j <= hits@.len(),
            forall|p: int| 0 <= p < j ==> hits@[p] != h,
        decreases hits@.len() - j,
    {
        if hits[j].0 == h.0 && hits[j].1 == h.1 {
            return true;
        }
        j = j + 1;
    }
    false
}

/// Says whether every hit of `a` is a hit of `b`.
fn within(a: &Vec<Hit>, b: &Vec<Hit>) -> (r: bool)
    ensures
        r == forall|j: int| 0 <= j < a@.len() ==> b@.contains(#[trigger] a@[j]),
{
    let mut j: usize = 0;
    while j < a.len()
        invariant
            j <= a@.len(),
            forall|p: int| 0 <= p < j ==> b@.contains(#[trigger] a@[p]),
        decreases a@.len() - j,
    {
        if !holds(b, a[j]) {
            return false;
        }
        j = j + 1;
    }
    true
}

/// Says whether two lists of hits hold the same hits, in whatever order.
pub fn same_hits(a: &Vec<Hit>, b: &Vec<Hit>) -> (r: bool)
    ensures
        r == (a@.to_set() == b@.to_set()),
{
    let r: bool = within(a, b) && within(b, a);
    proof {
        if r {
            assert(a@.to_set() =~= b@.to_set()) by {
                assert forall|h: Hit| a@.to_set().contains(h) == b@.to_set().contains(h) by {
                    if a@.contains(h) {
                        let j = choose|j: int| 0 <= j < a@.len() && a@[j] == h;
                        assert(b@.contains(a@[j]));
                    }
                    if b@.contains(h) {
                        let j = choose|j: int| 0 <= j < b@.len() && b@[j] == h;
                        assert(a@.contains(b@[j]));
                    }
                }
            }
        }
        if a@.to_set() == b@.to_set() {
            assert forall|j: int| 0 <= j < a@.len() implies b@.contains(#[trigger] a@[j]) by {
                assert(a@.to_set().contains(a@[j]));
            }
            assert forall|j: int| 0 <= j < b@.len() implies a@.contains(#[trigger] b@[j]) by {
                assert(b@.to_set().contains(b@[j]));
            }
        }
    }
    r
}

/// Whether two lists of results answer the same queries with the same hits.
pub open spec fn hits_agree(a: Seq<Vec<Hit>>, b: Seq<Vec<Hit>>) -> bool {
    &&& a.len() == b.len()
    &&& forall|i: int| 0 <= i < a.len() ==> (#[trigger] a[i])@.to_set() == b[i]@.to_set()
}

/// Checks that the hits from the uncompressed and compressed datasets are the same:
/// as many results, and for every query the same hits, in whatever order.
pub fn verify_hits(uncompressed: &Vec<Vec<Hit>>, compressed: &Vec<Vec<Hit>>) -> (r: Result<
    (),
    ClamError,
>)
    ensures
        r is Ok <==> hits_agree(uncompressed@, compressed@),
        r matches Err(e) ==> e == ClamError::HitsDiffer,
{
    if uncompressed.len() != compressed.len() {
        return Err(ClamError::HitsDiffer);
    }
    let mut i: usize = 0;
    while i < uncompressed.len()
        invariant
            i <= uncompressed@.len(),
            uncompressed@.len() == compressed@.len(),
            forall|p: int|
                0 <= p < i ==> (#[trigger] uncompressed@[p])@.to_set() == compressed@[p]@.to_set(),
        decreases uncompressed@.len() - i,
    {
        if !same_hits(&uncompressed[i], &compressed[i]) {
            return Err(ClamError::HitsDiffer);
        }
        i = i + 1;
    }
    Ok(())
}

/// Splits queries with their names into the names and the queries, in the same order.
fn unzip<T>(queries: Vec<(String, Vec<T>)>) -> (parts: (Vec<String>, Vec<Vec<T>>))
    ensures
        parts.0@.len() == queries@.len(),
        parts.1@.len() == queries@.len(),
        forall|i: int| 0 <= i < queries@.len() ==> #[trigger] parts.0@[i] == queries@[i].0,
        forall|i: int| 0 <= i < queries@.len() ==> #[trigger] parts.1@[i] == queries@[i].1,
{
    let ghost all = queries@;
    let mut rest: Vec<(String, Vec<T>)> = queries;
    let mut back_ids: Vec<String> = Vec::new();
    let mut back_queries: Vec<Vec<T>> = Vec::new();
    while rest.len() > 0
        invariant
            rest@.len() <= all.len(),
            rest@ == all.take(rest@.len() as int),
            back_ids@.len() == all.len() - rest@.len(),
            back_queries@.len() == all.len() - rest@.len(),
            forall|j: int|
                0 <= j < back_ids@.len() ==> #[trigger] back_ids@[j] == all[all.len() - 1 - j].0,
            forall|j: int|
                0 <= j < back_queries@.len() ==> #[trigger] back_queries@[j] == all[all.len() - 1
                    - j].1,
        decreases rest@.len(),
    {
        let pair: (String, Vec<T>) = rest.pop().unwrap();
        let (id, query) = pair;
        back_ids.push(id);
        back_queries.push(query);
    }
    let ghost rev_ids = back_ids@;
    let ghost rev_queries = back_queries@;
    let mut ids: Vec<String> = Vec::new();
    let mut qs: Vec<Vec<T>> = Vec::new();
    while back_ids.len() > 0
        invariant
            back_ids@.len() <= rev_ids.len(),
            back_ids@ == rev_ids.take(back_ids@.len() as int),
            ids@.len() == rev_ids.len() - back_ids@.len(),
            forall|j: int| 0 <= j < ids@.len() ==> #[trigger] ids@[j] == rev_ids[rev_ids.len() - 1 - j],
        decreases back_ids@.len(),
    {
        let id: String = back_ids.pop().unwrap();
        ids.push(id);
    }
    while back_queries.len() > 0
        invariant
            back_queries@.len() <= rev_queries.len(),
            back_queries@ == rev_queries.take(back_queries@.len() as int),
            qs@.len() == rev_queries.len() - back_queries@.len(),
            forall|j: int|
                0 <= j < qs@.len() ==> #[trigger] qs@[j] == rev_queries[rev_queries.len() - 1 - j],
        decreases back_queries@.len(),
    {
        let query: Vec<T> = back_queries.pop().unwrap();
        qs.push(query);
    }
    (ids, qs)
}

/// A dataset, the tree built over it, the compressed forms of both, and queries.
pub struct Group<T, M> {
    /// The dataset as it is.
    pub uncompressed: RowMajor<T, M>,
    /// The tree over the dataset.
    pub ball: Ball,
    /// The compressed dataset.
    pub compressed: CodecData<T, M>,
    /// The compressed tree.
    pub squishy_ball: SquishyBall,
    /// The names of the queries.
    pub query_ids: Vec<String>,
    /// The queries.
    pub queries: Vec<Vec<T>>,
}

/// The radii of the range searches that are compared.
pub open spec fn compared_radii() -> Seq<u64> {
    seq![5u64, 10u64, 100u64]
}

/// The numbers of neighbours of the nearest-neighbour searches that are compared.
pub open spec fn compared_ks() -> Seq<usize> {
    seq![1usize, 10usize, 100usize]
}

/// The searches that are compared: a range search for each radius, and then for each
/// number of neighbours the search by repeated range search with multiplier 2, the
/// breadth-first search and the depth-first search.
pub open spec fn compared_algorithms() -> Seq<Algorithm> {
    seq![
        Algorithm::RnnClustered(5),
        Algorithm::RnnClustered(10),
        Algorithm::RnnClustered(100),
        Algorithm::KnnRepeatedRnn(1, 2),
        Algorithm::KnnBreadthFirst(1),
        Algorithm::KnnDepthFirst(1),
        Algorithm::KnnRepeatedRnn(10, 2),
        Algorithm::KnnBreadthFirst(10),
        Algorithm::KnnDepthFirst(10),
        Algorithm::KnnRepeatedRnn(100, 2),
        Algorithm::KnnBreadthFirst(100),
        Algorithm::KnnDepthFirst(100),
    ]
}

/// Returns the searches that are compared, in the order in which they are run.
pub fn plan() -> (algorithms: Vec<Algorithm>)
    ensures
        algorithms@ == compared_algorithms(),
{
    let mut algorithms: Vec<Algorithm> = Vec::new();
    algorithms.push(Algorithm::RnnClustered(5));
    algorithms.push(Algorithm::RnnClustered(10));
    algorithms.push(Algorithm::RnnClustered(100));
    algorithms.push(Algorithm::KnnRepeatedRnn(1, 2));
    algorithms.push(Algorithm::KnnBreadthFirst(1));
    algorithms.push(Algorithm::KnnDepthFirst(1));
    algorithms.push(Algorithm::KnnRepeatedRnn(10, 2));
    algorithms.push(Algorithm::KnnBreadthFirst(10));
    algorithms.push(Algorithm::KnnDepthFirst(10));
    algorithms.push(Algorithm::KnnRepeatedRnn(100, 2));
    algorithms.push(Algorithm::KnnBreadthFirst(100));
    algorithms.push(Algorithm::KnnDepthFirst(100));
    proof {
        assert(algorithms@ =~= compared_algorithms());
    }
    algorithms
}

impl<T: Copy, M: Codec<T>> Group<T, M> {
    /// The invariant of a group: the tree is a tree over the dataset, the compressed
    /// dataset holds the instances of the dataset under the same metric, the compressed
    /// tree has the shape of the tree, and every query has a name.
    pub open spec fn wf(&self) -> bool {
        &&& self.uncompressed.wf()
        &&& self.ball.wf(self.uncompressed.spec_metric(), self.uncompressed.instances())
        &&& self.compressed.wf()
        &&& self.compressed.instances() == self.uncompressed.instances()
        &&& self.compressed.spec_metric() == self.uncompressed.spec_metric()
        &&& same_shape(self.ball, self.squishy_ball)
        &&& self.squishy_ball.wf(self.uncompressed.spec_metric(), self.uncompressed.instances())
        &&& self.query_ids@.len() == self.queries@.len()
    }

    /// Creates a group from a dataset and named queries: builds the tree over the
    /// dataset down to leaves of one member, with the seed 42, and compresses tree and
    /// dataset. `metric` is the metric of the dataset, for the compressed dataset to own.
    ///
    /// A dataset without instances has no tree, and a dataset with an instance that
    /// cannot be encoded against its reference has no compressed form.
    pub fn new(uncompressed: RowMajor<T, M>, metric: M, queries: Vec<(String, Vec<T>)>) -> (r:
        Result<Self, ClamError>)
        requires
            uncompressed.wf(),
            metric == uncompressed.spec_metric(),
        ensures
            match r {
                Ok(g) => {
                    &&& g.wf()
                    &&& g.uncompressed.instances() == uncompressed.instances()
                    &&& g.uncompressed.spec_metric() == uncompressed.spec_metric()
                    &&& g.ball.depth == 0
                    &&& g.ball.indices@.len() == uncompressed.instances().len()
                    &&& forall|i: int|
                        0 <= i < g.ball.indices@.len() ==> g.ball.indices@[i] == i
                    &&& g.ball.leaves_single()
                    &&& g.ball.all_divided(uncompressed.spec_metric(), uncompressed.instances())
                    &&& g.queries@.len() == queries@.len()
                    &&& forall|i: int|
                        0 <= i < queries@.len() ==> #[trigger] g.queries@[i] == queries@[i].1
                    &&& forall|i: int|
                        0 <= i < queries@.len() ==> #[trigger] g.query_ids@[i] == queries@[i].0
                },
                Err(e) => {
                    &&& e == ClamError::EmptyIndices <==> uncompressed.instances().len() == 0
                    &&& e == ClamError::NotEncodable ==> !all_encodable(
                        uncompressed.spec_metric(),
                        uncompressed.instances(),
                    )
                    &&& e == ClamError::EmptyIndices || e == ClamError::NotEncodable
                },
            },
    {
        let mut uncompressed: RowMajor<T, M> = uncompressed;
        let (query_ids, queries) = unzip(queries);
        let ball: Ball = match build_tree(&mut uncompressed, Some(42)) {
            Ok(b) => b,
            Err(e) => {
                return Err(e);
            },
        };
        let (squishy_ball, compressed) = match from_ball_tree(&ball, &uncompressed, metric) {
            Ok(pair) => pair,
            Err(e) => {
                return Err(e);
            },
        };
        Ok(Group { uncompressed, ball, compressed, squishy_ball, query_ids, queries })
    }

    /// Puts a group together from a dataset and from a tree, the entries of a compressed
    /// dataset and a compressed tree that were stored earlier, and holds them to the
    /// invariant of a group first: the tree must be a tree over the dataset, the entries
    /// must decode to the instances of the dataset, and the compressed tree must have
    /// the shape of the tree. `metric` is the metric of the dataset.
    pub fn restore(
        uncompressed: RowMajor<T, M>,
        metric: M,
        ball: Ball,
        entries: Vec<Entry<T>>,
        squishy_ball: SquishyBall,
        queries: Vec<(String, Vec<T>)>,
    ) -> (r: Result<Self, ClamError>) where T: PartialEq
        requires
            uncompressed.wf(),
            metric == uncompressed.spec_metric(),
            obeys_concrete_eq::<T>(),
        ensures
            match r {
                Ok(g) => {
                    &&& g.wf()
                    &&& g.uncompressed.instances() == uncompressed.instances()
                    &&& g.uncompressed.spec_metric() == uncompressed.spec_metric()
                    &&& g.ball == ball
                    &&& g.squishy_ball == squishy_ball
                    &&& g.compressed.stored() == entries@
                    &&& g.queries@.len() == queries@.len()
                },
                Err(e) => {
                    &&& e == ClamError::CorruptEncoding || e == ClamError::Persistence
                    &&& e == ClamError::CorruptEncoding <==> readable(entries@, metric) != Some(
                        uncompressed.instances(),
                    )
                    &&& e == ClamError::Persistence ==> !(ball.wf(
                        uncompressed.spec_metric(),
                        uncompressed.instances(),
                    ) && same_shape(ball, squishy_ball))
                },
            },
    {
        let mut uncompressed: RowMajor<T, M> = uncompressed;
        proof {
            uncompressed.lemma_metric_valid();
        }
        let compressed: CodecData<T, M> = match CodecData::from_entries(metric, entries) {
            Ok(c) => c,
            Err(e) => {
                return Err(e);
            },
        };
        if !same_instances(&compressed, &uncompressed) {
            return Err(ClamError::CorruptEncoding);
        }
        if !ball.check(&mut uncompressed) {
            return Err(ClamError::Persistence);
        }
        if !shapes_match(&ball, &squishy_ball) {
            return Err(ClamError::Persistence);
        }
        proof {
            lemma_same_shape_wf(
                ball,
                squishy_ball,
                uncompressed.spec_metric(),
                uncompressed.instances(),
            );
        }
        let (query_ids, queries) = unzip(queries);
        Ok(Group { uncompressed, ball, compressed, squishy_ball, query_ids, queries })
    }

    /// Returns the first `num_queries` queries.
    fn first_queries(&self, num_queries: usize) -> (qs: Vec<Vec<T>>)
        requires
            num_queries <= self.queries@.len(),
        ensures
            qs@.len() == num_queries,
            forall|i: int| 0 <= i < num_queries ==> (#[trigger] qs@[i])@ == self.queries@[i]@,
    {
        let mut qs: Vec<Vec<T>> = Vec::new();
        let mut i: usize = 0;
        while i < num_queries
            invariant
                i <= num_queries,
                num_queries <= self.queries@.len(),
                qs@.len() == i,
                forall|j: int| 0 <= j < i ==> (#[trigger] qs@[j])@ == self.queries@[j]@,
            decreases num_queries - i,
        {
            qs.push(copy_instance(&self.queries[i]));
            i = i + 1;
        }
        qs
    }

    /// Searches the tree for the first `num_queries` queries.
    pub fn search_uncompressed(&self, algorithm: &Algorithm, num_queries: usize) -> (hits: Vec<
        Vec<Hit>,
    >)
        requires
            self.wf(),
            num_queries <= self.queries@.len(),
        ensures
            hits@.len() == num_queries,
            forall|i: int|
                0 <= i < num_queries ==> algorithm.answers(
                    (#[trigger] hits@[i])@,
                    self.ball.indices@,
                    self.uncompressed.spec_metric(),
                    self.uncompressed.instances(),
                    self.queries@[i]@,
                ),
    {
        let qs: Vec<Vec<T>> = self.first_queries(num_queries);
        algorithm.batch_search(&self.uncompressed, &self.ball, &qs)
    }

    /// Searches the compressed tree for the first `num_queries` queries.
    pub fn search_compressed(&self, algorithm: &Algorithm, num_queries: usize) -> (hits: Vec<
        Vec<Hit>,
    >)
        requires
            self.wf(),
            num_queries <= self.queries@.len(),
        ensures
            hits@.len() == num_queries,
            forall|i: int|
                0 <= i < num_queries ==> algorithm.answers(
                    (#[trigger] hits@[i])@,
                    self.ball.indices@,
                    self.uncompressed.spec_metric(),
                    self.uncompressed.instances(),
                    self.queries@[i]@,
                ),
    {
        let qs: Vec<Vec<T>> = self.first_queries(num_queries);
        algorithm.batch_search(&self.compressed, &self.squishy_ball, &qs)
    }

    /// Runs one search for the first `num_queries` queries over the tree and over the
    /// compressed tree, checks that both give the same hits, and returns them. The check
    /// never fails.
    pub fn bench_search(&self, num_queries: usize, algorithm: &Algorithm) -> (r: Result<
        Vec<Vec<Hit>>,
        ClamError,
    >)
        requires
            self.wf(),
            num_queries <= self.queries@.len(),
        ensures
            r matches Ok(hits) && hits@.len() == num_queries && forall|i: int|
                0 <= i < num_queries ==> algorithm.answers(
                    (#[trigger] hits@[i])@,
                    self.ball.indices@,
                    self.uncompressed.spec_metric(),
                    self.uncompressed.instances(),
                    self.queries@[i]@,
                ),
    {
        let uncompressed_hits: Vec<Vec<Hit>> = self.search_uncompressed(algorithm, num_queries);
        let compressed_hits: Vec<Vec<Hit>> = self.search_compressed(algorithm, num_queries);
        proof {
            assert forall|i: int| 0 <= i < uncompressed_hits@.len() implies (
            #[trigger] uncompressed_hits@[i])@.to_set() == compressed_hits@[i]@.to_set() by {
                lemma_search_equivalence(
                    *algorithm,
                    uncompressed_hits@[i]@,
                    compressed_hits@[i]@,
                    self.ball.indices@,
                    self.uncompressed.spec_metric(),
                    self.uncompressed.instances(),
                    self.queries@[i]@,
                );
            }
        }
        match verify_hits(&uncompressed_hits, &compressed_hits) {
            Ok(_) => Ok(uncompressed_hits),
            Err(e) => Err(e),
        }
    }

    /// Runs every search that is compared, for up to `num_queries` queries, over the
    /// tree and over the compressed tree, and checks each time that both give the same
    /// hits. Returns how many queries were run. The check never fails.
    pub fn bench_compressive_search(&self, num_queries: usize) -> (r: Result<usize, ClamError>)
        requires
            self.wf(),
        ensures
            r matches Ok(n) && n == if num_queries <= self.queries@.len() {
                num_queries as nat
            } else {
                self.queries@.len()
            },
    {
        let num_queries: usize = if num_queries <= self.queries.len() {
            num_queries
        } else {
            self.queries.len()
        };
        let algorithms: Vec<Algorithm> = plan();
        let mut i: usize = 0;
        while i < algorithms.len()
            invariant
                i <= algorithms@.len(),
                self.wf(),
                num_queries <= self.queries@.len(),
            decreases algorithms@.len() - i,
        {
            match self.bench_search(num_queries, &algorithms[i]) {
                Ok(_) => {},
                Err(e) => {
                    return Err(e);
                },
            }
            i = i + 1;
        }
        Ok(num_queries)
    }
}

} // verus!
