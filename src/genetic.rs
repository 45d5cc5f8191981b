use vstd::prelude::*;
use rand::rngs::SmallRng;
use crate::random::draw_below;
use crate::excerpt::Quote;
use vstd::string::StringSliceAdditionalSpecFns;

verus! {

/// Number of symbols in the alphabet that genes are drawn from.
pub const ALPHABET_SIZE: usize = 74;

/// The `i`-th symbol of the alphabet: upper-case letters, lower-case
/// letters, digits, then space and common punctuation.
pub open spec fn symbol(i: int) -> u8 {
    if 0 <= i < 26 {
        (65 + i) as u8
    } else if 26 <= i < 52 {
        (97 + (i - 26)) as u8
    } else if 52 <= i < 62 {
        (48 + (i - 52)) as u8
    } else if i == 62 { 32u8 }
    else if i == 63 { 44u8 }
    else if i == 64 { 46u8 }
    else if i == 65 { 33u8 }
    else if i == 66 { 63u8 }
    else if i == 67 { 59u8 }
    else if i == 68 { 58u8 }
    else if i == 69 { 39u8 }
    else if i == 70 { 34u8 }
    else if i == 71 { 40u8 }
    else if i == 72 { 41u8 }
    else { 45u8 }
}

/// A byte is a symbol when it stands somewhere in the alphabet.
pub open spec fn is_symbol(b: u8) -> bool {
    exists|i: int| 0 <= i < ALPHABET_SIZE && #[trigger] symbol(i) == b
}

/// All bytes of `s` are symbols.
pub open spec fn all_symbols(s: Seq<u8>) -> bool {
    forall|i: int| 0 <= i < s.len() ==> is_symbol(#[trigger] s[i])
}

/// The `i`-th symbol of the alphabet.
pub fn symbol_at(i: usize) -> (r: u8)
    requires
        i < ALPHABET_SIZE,
    ensures
        r == symbol(i as int),
        is_symbol(r),
{
    let r: u8 = if i < 26 {
        65 + i as u8
    } else if i < 52 {
        97 + (i - 26) as u8
    } else if i < 62 {
        48 + (i - 52) as u8
    } else if i == 62 { 32 }
    else if i == 63 { 44 }
    else if i == 64 { 46 }
    else if i == 65 { 33 }
    else if i == 66 { 63 }
    else if i == 67 { 59 }
    else if i == 68 { 58 }
    else if i == 69 { 39 }
    else if i == 70 { 34 }
    else if i == 71 { 40 }
    else if i == 72 { 41 }
    else { 45 };
    assert(symbol(i as int) == r);
    r
}

/// Number of positions below `n` at which `genes` and `target` hold the same byte.
pub open spec fn count_matches(genes: Seq<u8>, target: Seq<u8>, n: int) -> nat
    decreases n,
{
    if n <= 0 {
        0
    } else {
        count_matches(genes, target, n - 1) + if genes[n - 1] == target[n - 1] { 1nat } else { 0nat }
    }
}

/// The fitness numerator of `genes` against `target`: the number of matching
/// positions. The fitness itself is this count divided by `target.len()`.
pub open spec fn matches_of(genes: Seq<u8>, target: Seq<u8>) -> nat {
    count_matches(genes, target, target.len() as int)
}

/// The count of matches never exceeds the number of positions compared, and
/// equals it exactly when the two prefixes agree.
pub proof fn lemma_count_matches_bounds(genes: Seq<u8>, target: Seq<u8>, n: int)
    requires
        0 <= n <= genes.len(),
        n <= target.len(),
    ensures
        count_matches(genes, target, n) <= n,
        count_matches(genes, target, n) == n <==> genes.subrange(0, n) == target.subrange(0, n),
    decreases n,
{
    if n > 0 {
        lemma_count_matches_bounds(genes, target, n - 1);
        if genes.subrange(0, n) == target.subrange(0, n) {
            assert(genes.subrange(0, n - 1) =~= genes.subrange(0, n).subrange(0, n - 1));
            assert(target.subrange(0, n - 1) =~= target.subrange(0, n).subrange(0, n - 1));
            assert(genes.subrange(0, n)[n - 1] == target.subrange(0, n)[n - 1]);
        }
        if count_matches(genes, target, n) == n {
            assert(genes.subrange(0, n) =~= target.subrange(0, n)) by {
                assert forall|k: int| 0 <= k < n implies genes[k] == target[k] by {
                    if k < n - 1 {
                        assert(genes.subrange(0, n - 1)[k] == target.subrange(0, n - 1)[k]);
                    }
                }
            }
        }
    } else {
        assert(genes.subrange(0, 0) =~= target.subrange(0, 0));
    }
}

/// Fitness lies in `[0, 1]`: the count of matches is at most the target's
/// length, and it reaches that length exactly when the genes equal the target.
pub proof fn lemma_fitness_in_unit_range(genes: Seq<u8>, target: Seq<u8>)
    requires
        genes.len() == target.len(),
    ensures
        matches_of(genes, target) <= target.len(),
        matches_of(genes, target) == target.len() <==> genes == target,
{
    lemma_count_matches_bounds(genes, target, target.len() as int);
    assert(genes.subrange(0, genes.len() as int) =~= genes);
    assert(target.subrange(0, target.len() as int) =~= target);
}

/// Mutation rates are probabilities in parts of this scale.
pub const RATE_SCALE: usize = 1000000;

/// The rate at which offspring are mutated: 2%.
pub const BASE_MUTATION_RATE: usize = 20000;

/// The genes after mutation under the draws `rolls` and `picks`.
pub open spec fn mutated(genes: Seq<u8>, rolls: Seq<usize>, picks: Seq<usize>, rate: usize) -> Seq<u8> {
    Seq::new(genes.len(), |i: int| if rolls[i] < rate { symbol(picks[i] as int) } else { genes[i] })
}

/// Every gene is the alphabet's symbol at the matching pick.
pub open spec fn drawn_from(genes: Seq<u8>, picks: Seq<usize>) -> bool {
    &&& picks.len() == genes.len()
    &&& forall|i: int| 0 <= i < picks.len() ==> #[trigger] picks[i] < ALPHABET_SIZE
    &&& forall|i: int| 0 <= i < picks.len() ==> #[trigger] genes[i] == symbol(picks[i] as int)
}

/// With rate zero nothing changes; at the full rate every gene is the drawn
/// symbol; symbols stay symbols.
pub proof fn lemma_mutated_facts(genes: Seq<u8>, rolls: Seq<usize>, picks: Seq<usize>, rate: usize)
    requires
        rolls.len() == genes.len(),
        picks.len() == genes.len(),
        forall|i: int| 0 <= i < rolls.len() ==> #[trigger] rolls[i] < RATE_SCALE,
        forall|i: int| 0 <= i < picks.len() ==> #[trigger] picks[i] < ALPHABET_SIZE,
    ensures
        rate == 0 ==> mutated(genes, rolls, picks, rate) == genes,
        rate == RATE_SCALE ==> forall|i: int| 0 <= i < genes.len()
            ==> #[trigger] mutated(genes, rolls, picks, rate)[i] == symbol(picks[i] as int),
        rate == RATE_SCALE ==> all_symbols(mutated(genes, rolls, picks, rate)),
        all_symbols(genes) ==> all_symbols(mutated(genes, rolls, picks, rate)),
{
    let m = mutated(genes, rolls, picks, rate);
    if rate == 0 {
        assert(m =~= genes);
    }
    assert forall|i: int| 0 <= i < m.len() && (rate == RATE_SCALE || is_symbol(genes[i])) implies is_symbol(#[trigger] m[i]) by {
        if rolls[i] < rate {
            assert(symbol(picks[i] as int) == m[i]);
        }
    }
}

/// One candidate solution: a gene string and the cached count of positions
/// at which it matched the target when its fitness was last computed.
pub struct Individual {
    genes: Vec<u8>,
    score: usize,
}

impl View for Individual {
    type V = (Seq<u8>, nat);

    closed spec fn view(&self) -> (Seq<u8>, nat) {
        (self.genes@, self.score as nat)
    }
}

impl Individual {
    /// The gene string.
    pub closed spec fn genes_view(&self) -> Seq<u8> {
        self.genes@
    }

    /// The cached fitness numerator.
    pub closed spec fn score_view(&self) -> nat {
        self.score as nat
    }

    /// Genes of the right length, all drawn from the alphabet.
    pub open spec fn well_formed(&self, len: nat) -> bool {
        self.genes_view().len() == len && all_symbols(self.genes_view())
    }

    /// The cached fitness is that of the genes against `target`.
    pub open spec fn evaluated(&self, target: Seq<u8>) -> bool {
        self.genes_view().len() == target.len() && self.score_view() == matches_of(self.genes_view(), target)
    }

    /// An individual with the given genes and its fitness not yet computed.
    pub fn from_genes(genes: Vec<u8>) -> (r: Individual)
        ensures
            r.genes_view() == genes@,
            r.score_view() == 0,
    {
        Individual { genes, score: 0 }
    }

    /// An individual of `length` symbols, each drawn uniformly from the alphabet.
    pub fn new_random(length: usize, rng: &mut SmallRng) -> (r: Individual)
        ensures
            r.well_formed(length as nat),
            r.score_view() == 0,
    {
        let mut genes: Vec<u8> = Vec::with_capacity(length);
        let mut i: usize = 0;
        while i < length
            invariant
                i <= length,
                genes@.len() == i,
                all_symbols(genes@),
            decreases length - i,
        {
            let k = draw_below(rng, ALPHABET_SIZE);
            genes.push(symbol_at(k));
            i += 1;
        }
        Individual { genes, score: 0 }
    }
    /// Recomputes the cached fitness against `target` and returns it as the
    /// number of matching positions; the fitness is that number over `target.len()`.
    pub fn calculate_fitness(&mut self, target: &[u8]) -> (r: usize)
        requires
            old(self).genes_view().len() == target@.len(),
            target@.len() > 0,
        ensures
            final(self).genes_view() == old(self).genes_view(),
            final(self).evaluated(target@),
            r == final(self).score_view(),
            r == matches_of(old(self).genes_view(), target@),
            r <= target@.len(),
            r == target@.len() <==> old(self).genes_view() == target@,
    {
        let mut count: usize = 0;
        let mut i: usize = 0;
        while i < target.len()
            invariant
                i <= target@.len(),
                self.genes@.len() == target@.len(),
                count == count_matches(self.genes@, target@, i as int),
                count <= i,
            decreases target@.len() - i,
        {
            if self.genes[i] == target[i] {
                count += 1;
            }
            i += 1;
        }
        self.score = count;
        proof {
            lemma_fitness_in_unit_range(self.genes@, target@);
        }
        count
    }

    /// The child of `self` and `other` cut at `split`: the genes of `self`
    /// before the cut, those of `other` from it on. Its fitness is unset.
    pub fn crossover_at(&self, other: &Individual, split: usize) -> (r: Individual)
        requires
            self.genes_view().len() == other.genes_view().len(),
            split <= self.genes_view().len(),
        ensures
            r.genes_view() == self.genes_view().subrange(0, split as int)
                + other.genes_view().subrange(split as int, other.genes_view().len() as int),
            r.score_view() == 0,
            all_symbols(self.genes_view()) && all_symbols(other.genes_view()) ==> all_symbols(r.genes_view()),
    {
        let n = self.genes.len();
        let mut genes: Vec<u8> = Vec::with_capacity(n);
        let mut i: usize = 0;
        while i < n
            invariant
                i <= n,
                n == self.genes@.len(),
                n == other.genes@.len(),
                split <= n,
                genes@ == (self.genes@.subrange(0, split as int) + other.genes@.subrange(
                    split as int,
                    n as int,
                )).subrange(0, i as int),
            decreases n - i,
        {
            let g = if i < split { self.genes[i] } else { other.genes[i] };
            proof {
                let whole = self.genes@.subrange(0, split as int) + other.genes@.subrange(split as int, n as int);
                assert(whole[i as int] == g);
                assert(whole.subrange(0, i + 1) =~= whole.subrange(0, i as int).push(g));
            }
            genes.push(g);
            i += 1;
        }
        proof {
            let whole = self.genes@.subrange(0, split as int) + other.genes@.subrange(split as int, n as int);
            assert(whole.subrange(0, n as int) =~= whole);
            if all_symbols(self.genes@) && all_symbols(other.genes@) {
                assert forall|k: int| 0 <= k < whole.len() implies is_symbol(#[trigger] whole[k]) by {
                    if k < split {
                        assert(whole[k] == self.genes@[k]);
                    } else {
                        assert(whole[k] == other.genes@[k]);
                    }
                }
            }
        }
        Individual { genes, score: 0 }
    }

    /// The child of `self` and `other` cut at a split point drawn uniformly
    /// from `0..len`.
    pub fn crossover(&self, other: &Individual, rng: &mut SmallRng) -> (r: Individual)
        requires
            self.genes_view().len() == other.genes_view().len(),
            self.genes_view().len() > 0,
        ensures
            r.genes_view().len() == self.genes_view().len(),
            r.score_view() == 0,
            all_symbols(self.genes_view()) && all_symbols(other.genes_view()) ==> all_symbols(r.genes_view()),
            exists|split: int|
                0 <= split < self.genes_view().len() && r.genes_view() == #[trigger] self.genes_view().subrange(0, split)
                    + other.genes_view().subrange(split, other.genes_view().len() as int),
    {
        let split = draw_below(rng, self.genes.len());
        let r = self.crossover_at(other, split);
        assert(r.genes_view() == self.genes_view().subrange(0, split as int)
            + other.genes_view().subrange(split as int, other.genes_view().len() as int));
        r
    }

    /// Mutation under given draws: position `i` takes the symbol `picks[i]`
    /// of the alphabet when `rolls[i] < rate`, and keeps its gene otherwise.
    /// The rate is a probability in parts of `RATE_SCALE`.
    pub fn apply_mutation(&mut self, rolls: &Vec<usize>, picks: &Vec<usize>, rate: usize)
        requires
            rolls@.len() == old(self).genes_view().len(),
            picks@.len() == old(self).genes_view().len(),
            forall|i: int| 0 <= i < picks@.len() ==> #[trigger] picks@[i] < ALPHABET_SIZE,
        ensures
            final(self).score_view() == old(self).score_view(),
            final(self).genes_view() == mutated(old(self).genes_view(), rolls@, picks@, rate),
    {
        let n = self.genes.len();
        let ghost start = self.genes@;
        let mut i: usize = 0;
        while i < n
            invariant
                i <= n,
                n == start.len(),
                rolls@.len() == n,
                picks@.len() == n,
                forall|j: int| 0 <= j < picks@.len() ==> #[trigger] picks@[j] < ALPHABET_SIZE,
                self.score == old(self).score,
                start == old(self).genes@,
                self.genes@.len() == n,
                forall|j: int| 0 <= j < i ==> self.genes@[j] == #[trigger] mutated(start, rolls@, picks@, rate)[j],
                forall|j: int| i <= j < n ==> self.genes@[j] == #[trigger] start[j],
            decreases n - i,
        {
            if rolls[i] < rate {
                let s = symbol_at(picks[i]);
                self.genes.set(i, s);
            }
            i += 1;
        }
        assert(self.genes@ =~= mutated(start, rolls@, picks@, rate));
    }

    /// Independently at each position, with probability `rate / RATE_SCALE`,
    /// replaces the gene by a symbol drawn uniformly from the alphabet.
    pub fn mutate(&mut self, rate: usize, rng: &mut SmallRng)
        requires
            rate <= RATE_SCALE,
        ensures
            final(self).score_view() == old(self).score_view(),
            exists|rolls: Seq<usize>, picks: Seq<usize>|
                rolls.len() == old(self).genes_view().len() && picks.len() == old(self).genes_view().len()
                && (forall|i: int| 0 <= i < rolls.len() ==> #[trigger] rolls[i] < RATE_SCALE)
                && (forall|i: int| 0 <= i < picks.len() ==> #[trigger] picks[i] < ALPHABET_SIZE)
                && final(self).genes_view() == #[trigger] mutated(old(self).genes_view(), rolls, picks, rate),
            rate == 0 ==> final(self).genes_view() == old(self).genes_view(),
            rate == RATE_SCALE ==> exists|picks: Seq<usize>| #[trigger] drawn_from(final(self).genes_view(), picks),
            rate == RATE_SCALE ==> all_symbols(final(self).genes_view()),
            all_symbols(old(self).genes_view()) ==> all_symbols(final(self).genes_view()),
            final(self).genes_view().len() == old(self).genes_view().len(),
    {
        let n = self.genes.len();
        let mut rolls: Vec<usize> = Vec::with_capacity(n);
        let mut picks: Vec<usize> = Vec::with_capacity(n);
        let mut i: usize = 0;
        while i < n
            invariant
                i <= n,
                rolls@.len() == i,
                picks@.len() == i,
                forall|j: int| 0 <= j < i ==> #[trigger] rolls@[j] < RATE_SCALE,
                forall|j: int| 0 <= j < i ==> #[trigger] picks@[j] < ALPHABET_SIZE,
            decreases n - i,
        {
            rolls.push(draw_below(rng, RATE_SCALE));
            picks.push(draw_below(rng, ALPHABET_SIZE));
            i += 1;
        }
        let ghost before = self.genes@;
        self.apply_mutation(&rolls, &picks, rate);
        proof {
            lemma_mutated_facts(before, rolls@, picks@, rate);
            if rate == RATE_SCALE {
                assert(drawn_from(self.genes@, picks@));
            }
        }
    }

    /// The gene string.
    pub fn genes(&self) -> (r: &Vec<u8>)
        ensures
            r@ == self.genes_view(),
    {
        &self.genes
    }

    /// The cached fitness numerator: matching positions at the last evaluation.
    pub fn score(&self) -> (r: usize)
        ensures
            r == self.score_view(),
    {
        self.score
    }

    /// A copy with the same genes and cached fitness.
    pub fn duplicate(&self) -> (r: Individual)
        ensures
            r@ == self@,
            r.genes_view() == self.genes_view(),
            r.score_view() == self.score_view(),
    {
        let genes = self.genes.clone();
        assert(genes@ =~= self.genes@);
        Individual { genes, score: self.score }
    }
}

/// The models of a sequence of individuals.
pub open spec fn views(pop: Seq<Individual>) -> Seq<(Seq<u8>, nat)> {
    pop.map_values(|x: Individual| x@)
}

/// A model with its fitness computed against `target`.
pub open spec fn evaluate_one(x: (Seq<u8>, nat), target: Seq<u8>) -> (Seq<u8>, nat) {
    (x.0, matches_of(x.0, target))
}

/// Every model of `pop` with its fitness computed against `target`, in order.
pub open spec fn evaluate_model(pop: Seq<(Seq<u8>, nat)>, target: Seq<u8>) -> Seq<(Seq<u8>, nat)> {
    pop.map_values(|x: (Seq<u8>, nat)| evaluate_one(x, target))
}

/// The number of chunks that `len` items are split into for `workers` workers.
pub open spec fn chunk_count(len: nat, workers: nat) -> nat {
    if workers <= len { workers } else { len }
}

/// Where chunk `k` starts; the last chunk ends at `len` and so absorbs the remainder.
pub open spec fn chunk_boundary(len: nat, workers: nat, k: int) -> int {
    if k >= chunk_count(len, workers) {
        len as int
    } else {
        k * (len / chunk_count(len, workers)) as int
    }
}

/// `s` cut into `chunk_count` contiguous chunks of `len / count` items each,
/// the last one taking what remains.
pub open spec fn chunks_of<A>(s: Seq<A>, workers: nat) -> Seq<Seq<A>> {
    Seq::new(
        chunk_count(s.len(), workers),
        |k: int| s.subrange(chunk_boundary(s.len(), workers, k), chunk_boundary(s.len(), workers, k + 1)),
    )
}

/// The chunks of `cs` joined in order.
pub open spec fn concat<A>(cs: Seq<Seq<A>>) -> Seq<A>
    decreases cs.len(),
{
    if cs.len() == 0 {
        Seq::empty()
    } else {
        concat(cs.drop_last()) + cs.last()
    }
}

/// Chunk boundaries grow with `k` and stay within `0..=len`.
pub proof fn lemma_chunk_boundary(len: nat, workers: nat, k: int)
    requires
        0 <= k,
    ensures
        0 <= chunk_boundary(len, workers, k) <= chunk_boundary(len, workers, k + 1) <= len,
        workers >= 1 ==> chunk_boundary(len, workers, 0) == 0,
{
    let c = chunk_count(len, workers);
    if c > 0 {
        let size = len / c;
        assert(c * size <= len) by (nonlinear_arith)
            requires size == len / c, c > 0;
        if k + 1 < c {
            assert(k * size <= (k + 1) * size <= c * size) by (nonlinear_arith)
                requires 0 <= k, k + 1 < c, size >= 0;
        } else if k < c {
            assert(k * size <= c * size) by (nonlinear_arith)
                requires 0 <= k, k < c, size >= 0;
        }
        assert(0 * size == 0);
    }
}

/// Joining the first `k` chunks of `s` gives the items before boundary `k`.
pub proof fn lemma_concat_chunks_prefix<A>(s: Seq<A>, workers: nat, k: int)
    requires
        workers >= 1,
        0 <= k <= chunk_count(s.len(), workers),
    ensures
        concat(chunks_of(s, workers).subrange(0, k)) == s.subrange(0, chunk_boundary(s.len(), workers, k)),
    decreases k,
{
    let cs = chunks_of(s, workers);
    lemma_chunk_boundary(s.len(), workers, k);
    if k == 0 {
        assert(concat(cs.subrange(0, 0)) =~= s.subrange(0, 0));
    } else {
        lemma_concat_chunks_prefix(s, workers, k - 1);
        lemma_chunk_boundary(s.len(), workers, k - 1);
        assert(cs.subrange(0, k).drop_last() =~= cs.subrange(0, k - 1));
        let b0 = chunk_boundary(s.len(), workers, k - 1);
        let b1 = chunk_boundary(s.len(), workers, k);
        assert(s.subrange(0, b0) + s.subrange(b0, b1) =~= s.subrange(0, b1));
    }
}

/// Joining all the chunks of `s` gives `s` back.
pub proof fn lemma_concat_chunks<A>(s: Seq<A>, workers: nat)
    requires
        workers >= 1,
    ensures
        concat(chunks_of(s, workers)) == s,
{
    let c = chunk_count(s.len(), workers);
    lemma_concat_chunks_prefix(s, workers, c as int);
    assert(chunks_of(s, workers).subrange(0, c as int) =~= chunks_of(s, workers));
    assert(s.subrange(0, s.len() as int) =~= s);
}

/// Evaluating chunk by chunk and joining equals joining then evaluating.
pub proof fn lemma_evaluate_concat(cs: Seq<Seq<(Seq<u8>, nat)>>, target: Seq<u8>)
    ensures
        concat(cs.map_values(|c: Seq<(Seq<u8>, nat)>| evaluate_model(c, target))) == evaluate_model(concat(cs), target),
    decreases cs.len(),
{
    if cs.len() > 0 {
        lemma_evaluate_concat(cs.drop_last(), target);
        assert(cs.map_values(|c: Seq<(Seq<u8>, nat)>| evaluate_model(c, target)).drop_last()
            =~= cs.drop_last().map_values(|c: Seq<(Seq<u8>, nat)>| evaluate_model(c, target)));
        assert(evaluate_model(concat(cs.drop_last()) + cs.last(), target)
            =~= evaluate_model(concat(cs.drop_last()), target) + evaluate_model(cs.last(), target));
    } else {
        assert(evaluate_model(concat(cs), target) =~= Seq::empty());
    }
}

/// Fitness evaluation split over any number of workers, each evaluating one
/// chunk, gives after joining the chunks in order exactly what one
/// evaluation of the whole population gives.
pub proof fn lemma_chunked_evaluation(pop: Seq<(Seq<u8>, nat)>, target: Seq<u8>, workers: nat)
    requires
        workers >= 1,
    ensures
        concat(chunks_of(pop, workers).map_values(|c: Seq<(Seq<u8>, nat)>| evaluate_model(c, target)))
            == evaluate_model(pop, target),
{
    lemma_evaluate_concat(chunks_of(pop, workers), target);
    lemma_concat_chunks(pop, workers);
}

/// The individuals of `chunk` with their fitness computed against `target`, in the same order.
pub fn evaluate_chunk(chunk: &Vec<Individual>, target: &[u8]) -> (r: Vec<Individual>)
    requires
        forall|i: int| 0 <= i < chunk@.len() ==> (#[trigger] chunk@[i]).genes_view().len() == target@.len(),
        target@.len() > 0,
    ensures
        views(r@) == evaluate_model(views(chunk@), target@),
{
    let mut r: Vec<Individual> = Vec::with_capacity(chunk.len());
    let rest = chunk;
    let ghost all = rest@;
    let mut i: usize = 0;
    let n = rest.len();
    while i < n
        invariant
            n == all.len(),
            i <= n,
            rest@.len() == n,
            forall|j: int| i <= j < n ==> #[trigger] rest@[j] == all[j],
            forall|j: int| 0 <= j < n ==> (#[trigger] all[j]).genes_view().len() == target@.len(),
            target@.len() > 0,
            views(r@) == evaluate_model(views(all.subrange(0, i as int)), target@),
        decreases n - i,
    {
        let mut x = rest[i].duplicate();
        x.calculate_fitness(target);
        let ghost before = views(r@);
        assert(x@ == evaluate_one(all[i as int]@, target@));
        r.push(x);
        assert(views(r@) =~= before.push(evaluate_one(all[i as int]@, target@)));
        assert(views(all.subrange(0, i + 1)) =~= views(all.subrange(0, i as int)).push(all[i as int]@));
        assert(views(r@) =~= evaluate_model(views(all.subrange(0, i + 1)), target@));
        i += 1;
    }
    assert(all.subrange(0, n as int) =~= all);
    r
}

/// The chunks joined in order.
pub fn join_chunks(chunks: Vec<Vec<Individual>>) -> (r: Vec<Individual>)
    ensures
        views(r@) == concat(chunks@.map_values(|c: Vec<Individual>| views(c@))),
{
    let ghost cs = chunks@.map_values(|c: Vec<Individual>| views(c@));
    let mut r: Vec<Individual> = Vec::new();
    let mut k: usize = 0;
    while k < chunks.len()
        invariant
            k <= chunks@.len(),
            cs == chunks@.map_values(|c: Vec<Individual>| views(c@)),
            views(r@) == concat(cs.subrange(0, k as int)),
        decreases chunks@.len() - k,
    {
        let chunk = &chunks[k];
        let ghost before = views(r@);
        let mut j: usize = 0;
        while j < chunk.len()
            invariant
                j <= chunk@.len(),
                views(r@) == before + views(chunk@).subrange(0, j as int),
            decreases chunk@.len() - j,
        {
            let ghost prev = views(r@);
            let y = chunk[j].duplicate();
            r.push(y);
            assert(views(r@) =~= prev.push(chunk@[j as int]@));
            assert(views(r@) =~= before + views(chunk@).subrange(0, j + 1));
            j += 1;
        }
        assert(cs.subrange(0, k + 1).drop_last() =~= cs.subrange(0, k as int));
        assert(views(chunk@).subrange(0, chunk@.len() as int) =~= views(chunk@));
        k += 1;
    }
    assert(cs.subrange(0, chunks@.len() as int) =~= cs);
    r
}

/// Models sorted by fitness, highest first.
pub open spec fn sorted_desc(s: Seq<(Seq<u8>, nat)>) -> bool {
    forall|i: int, j: int| 0 <= i < j < s.len() ==> (#[trigger] s[i]).1 >= (#[trigger] s[j]).1
}

/// The individuals of `pop` sorted by cached fitness, highest first.
pub fn sort_by_fitness(pop: &Vec<Individual>) -> (r: Vec<Individual>)
    ensures
        views(r@).to_multiset() == views(pop@).to_multiset(),
        sorted_desc(views(r@)),
        r@.len() == pop@.len(),
{
    let mut r: Vec<Individual> = Vec::with_capacity(pop.len());
    let mut i: usize = 0;
    assert(views(pop@.subrange(0, 0)) =~= views(r@));
    while i < pop.len()
        invariant
            i <= pop@.len(),
            r@.len() == i,
            views(r@).to_multiset() == views(pop@.subrange(0, i as int)).to_multiset(),
            sorted_desc(views(r@)),
        decreases pop@.len() - i,
    {
        let x = pop[i].duplicate();
        let s = x.score;
        let mut p: usize = 0;
        while p < r.len() && r[p].score >= s
            invariant
                p <= r@.len(),
                forall|j: int| 0 <= j < p ==> (#[trigger] r@[j]).score >= s,
            decreases r@.len() - p,
        {
            p += 1;
        }
        let ghost old_v = views(r@);
        let ghost xv = x@;
        r.insert(p, x);
        proof {
            assert(views(r@) =~= old_v.insert(p as int, xv));
            vstd::seq_lib::to_multiset_insert(old_v, p as int, xv);
            assert(views(pop@.subrange(0, i + 1)) =~= views(pop@.subrange(0, i as int)).push(xv));
            vstd::seq_lib::to_multiset_build(views(pop@.subrange(0, i as int)), xv);
            let nv = views(r@);
            assert forall|a: int, b: int| 0 <= a < b < nv.len() implies (#[trigger] nv[a]).1 >= (#[trigger] nv[b]).1 by {
                if b < p {
                } else if b == p {
                    assert(old_v[a].1 == r@[a].score);
                } else if a < p {
                } else if a == p {
                    assert(old_v[b - 1].1 <= old_v[p as int].1 || b - 1 == p);
                    if p < old_v.len() {
                        assert(old_v[p as int].1 < s);
                    }
                } else {
                }
            }
        }
        i += 1;
    }
    assert(pop@.subrange(0, pop@.len() as int) =~= pop@);
    r
}

/// The size of every generation.
pub const POPULATION_SIZE: usize = 1000;

/// How many individuals each tournament draws.
pub const TOURNAMENT_SIZE: usize = 5;

/// The run has converged once the best fitness, `score / len`, reaches 0.95.
pub open spec fn threshold_reached(score: nat, len: nat) -> bool {
    20 * score >= 19 * len
}

/// Whether `score` matches out of `len` reach the convergence threshold.
pub fn reaches_threshold(score: usize, len: usize) -> (r: bool)
    ensures
        r == threshold_reached(score as nat, len as nat),
{
    (score as u128) * 20 >= (len as u128) * 19
}

/// The position of the tournament's winner among `draws`, or -1 for no
/// draws: the first drawn individual with the highest fitness.
pub open spec fn tournament_winner(pop: Seq<(Seq<u8>, nat)>, draws: Seq<usize>) -> int
    decreases draws.len(),
{
    if draws.len() == 0 {
        -1
    } else {
        let w = tournament_winner(pop, draws.drop_last());
        let d = draws.last() as int;
        if w < 0 || pop[d].1 > pop[w].1 { d } else { w }
    }
}

/// The individual that a tournament over `draws` selects: the winner, or
/// the first individual when nothing was drawn.
pub open spec fn tournament_choice(pop: Seq<(Seq<u8>, nat)>, draws: Seq<usize>) -> int {
    if draws.len() == 0 { 0 } else { tournament_winner(pop, draws) }
}

/// A tournament's draws: `TOURNAMENT_SIZE` positions in the population.
pub open spec fn valid_draws(d: Seq<usize>) -> bool {
    d.len() == TOURNAMENT_SIZE && forall|i: int| 0 <= i < d.len() ==> #[trigger] d[i] < POPULATION_SIZE
}

/// Mutation draws for `n` genes: a roll below `RATE_SCALE` and a symbol
/// position for each.
pub open spec fn mutation_draws(rolls: Seq<usize>, picks: Seq<usize>, n: nat) -> bool {
    &&& rolls.len() == n
    &&& picks.len() == n
    &&& forall|i: int| 0 <= i < rolls.len() ==> #[trigger] rolls[i] < RATE_SCALE
    &&& forall|i: int| 0 <= i < picks.len() ==> #[trigger] picks[i] < ALPHABET_SIZE
}

/// The genes of the child of the winners of tournaments over `d1` and `d2`,
/// cut at `split` and mutated at the base rate under `rolls` and `picks`.
pub open spec fn child_of(
    pop: Seq<(Seq<u8>, nat)>,
    d1: Seq<usize>,
    d2: Seq<usize>,
    split: int,
    rolls: Seq<usize>,
    picks: Seq<usize>,
) -> Seq<u8> {
    let a = pop[tournament_choice(pop, d1)].0;
    let b = pop[tournament_choice(pop, d2)].0;
    mutated(a.subrange(0, split) + b.subrange(split, b.len() as int), rolls, picks, BASE_MUTATION_RATE)
}

/// `genes` is what some tournaments, cut and mutation draws over `pop`
/// breed, for gene strings of length `n`.
pub open spec fn is_child(pop: Seq<(Seq<u8>, nat)>, n: nat, genes: Seq<u8>) -> bool {
    exists|d1: Seq<usize>, d2: Seq<usize>, split: int, rolls: Seq<usize>, picks: Seq<usize>|
        valid_draws(d1) && valid_draws(d2) && 0 <= split < n && mutation_draws(rolls, picks, n)
        && #[trigger] child_of(pop, d1, d2, split, rolls, picks) == genes
}

/// `ranked` is the evaluation of `pop` against `target`, sorted by fitness
/// with the best first.
pub open spec fn ranking_of(ranked: Seq<(Seq<u8>, nat)>, pop: Seq<(Seq<u8>, nat)>, target: Seq<u8>) -> bool {
    ranked.to_multiset() == evaluate_model(pop, target).to_multiset() && sorted_desc(ranked)
}

/// Every place of `next` after the first holds a child bred from `ranked`.
pub open spec fn bred_from(ranked: Seq<(Seq<u8>, nat)>, n: nat, next: Seq<(Seq<u8>, nat)>) -> bool {
    forall|i: int| 1 <= i < next.len() ==> is_child(ranked, n, #[trigger] next[i].0)
}

/// A tournament with valid draws picks one of them.
pub proof fn lemma_tournament_winner_range(pop: Seq<(Seq<u8>, nat)>, draws: Seq<usize>)
    requires
        forall|i: int| 0 <= i < draws.len() ==> #[trigger] draws[i] < pop.len(),
    ensures
        draws.len() == 0 ==> tournament_winner(pop, draws) == -1,
        draws.len() > 0 ==> 0 <= tournament_winner(pop, draws) < pop.len(),
    decreases draws.len(),
{
    if draws.len() > 0 {
        lemma_tournament_winner_range(pop, draws.drop_last());
        assert(draws.last() == draws[draws.len() - 1]);
    }
}

/// Elitism keeps the best fitness from falling: when a ranked, evaluated
/// population passes its best individual unchanged to the first place of the
/// next generation, ranking the evaluation of that generation gives a best
/// fitness at least as high.
pub proof fn lemma_best_fitness_monotone(
    ranked: Seq<(Seq<u8>, nat)>,
    next: Seq<(Seq<u8>, nat)>,
    reranked: Seq<(Seq<u8>, nat)>,
    target: Seq<u8>,
)
    requires
        ranked.len() > 0,
        next.len() > 0,
        ranked[0].1 == matches_of(ranked[0].0, target),
        next[0] == ranked[0],
        reranked.to_multiset() == evaluate_model(next, target).to_multiset(),
        sorted_desc(reranked),
    ensures
        reranked.len() > 0,
        reranked[0].1 >= ranked[0].1,
{
    let ev = evaluate_model(next, target);
    assert(ev[0] == ranked[0]);
    vstd::seq_lib::to_multiset_contains(ev, ev[0]);
    vstd::seq_lib::to_multiset_contains(reranked, ev[0]);
    let k = choose|k: int| 0 <= k < reranked.len() && reranked[k] == ev[0];
    if k > 0 {
        assert(reranked[0].1 >= reranked[k].1);
    }
}

/// The evolving state: the target, the current generation and its best fitness.
pub struct GeneticAlgorithm {
    target: Vec<u8>,
    population: Vec<Individual>,
    best_score: usize,
    generation: usize,
    quotes: Vec<Quote>,
}

impl GeneticAlgorithm {
    /// The target string.
    pub closed spec fn target_view(&self) -> Seq<u8> {
        self.target@
    }

    /// The current population, as models.
    pub closed spec fn population_view(&self) -> Seq<(Seq<u8>, nat)> {
        views(self.population@)
    }

    /// The best fitness numerator seen at the last ranking.
    pub closed spec fn best_view(&self) -> nat {
        self.best_score as nat
    }

    /// The quotes shown alongside the evolving text.
    pub closed spec fn quotes_view(&self) -> Seq<Quote> {
        self.quotes@
    }

    /// The number of generations completed.
    pub closed spec fn generation_view(&self) -> nat {
        self.generation as nat
    }

    /// A non-empty target, a full population of gene strings of the
    /// target's length made of symbols, and a recorded best fitness that the
    /// first individual's genes attain.
    pub open spec fn well_formed(&self) -> bool {
        &&& self.target_view().len() > 0
        &&& self.best_view() <= matches_of(self.population_view()[0].0, self.target_view())
        &&& self.population_view().len() == POPULATION_SIZE
        &&& forall|i: int| 0 <= i < self.population_view().len()
            ==> (#[trigger] self.population_view()[i]).0.len() == self.target_view().len()
            && all_symbols(self.population_view()[i].0)
    }

    /// An engine evolving towards the bytes of `target_text`, with a random
    /// first generation; `None` when the target is empty.
    pub fn new(target_text: &str, quotes: Vec<Quote>, rng: &mut SmallRng) -> (r: Option<GeneticAlgorithm>)
        ensures
            r is None <==> target_text.spec_bytes().len() == 0,
            r matches Some(ga) ==> ga.well_formed() && ga.target_view() == target_text.spec_bytes()
                && ga.best_view() == 0 && ga.generation_view() == 0 && ga.quotes_view() == quotes@
                && forall|i: int| 0 <= i < POPULATION_SIZE ==> (#[trigger] ga.population_view()[i]).1 == 0,
    {
        let bytes = target_text.as_bytes();
        if bytes.len() == 0 {
            return None;
        }
        let mut target: Vec<u8> = Vec::with_capacity(bytes.len());
        let mut i: usize = 0;
        while i < bytes.len()
            invariant
                i <= bytes@.len(),
                target@ == bytes@.subrange(0, i as int),
            decreases bytes@.len() - i,
        {
            target.push(bytes[i]);
            assert(target@ =~= bytes@.subrange(0, i + 1));
            i += 1;
        }
        assert(target@ =~= bytes@);
        let mut population: Vec<Individual> = Vec::with_capacity(POPULATION_SIZE);
        let mut k: usize = 0;
        while k < POPULATION_SIZE
            invariant
                k <= POPULATION_SIZE,
                population@.len() == k,
                forall|j: int| 0 <= j < k ==> (#[trigger] population@[j]).well_formed(target@.len())
                    && population@[j].score_view() == 0,
            decreases POPULATION_SIZE - k,
        {
            population.push(Individual::new_random(target.len(), rng));
            k += 1;
        }
        Some(GeneticAlgorithm { target, population, best_score: 0, generation: 0, quotes })
    }

    /// The current population cut into chunks, one per worker, for
    /// evaluation in parallel.
    pub fn split_population(&self, workers: usize) -> (r: Vec<Vec<Individual>>)
        requires
            self.well_formed(),
            workers >= 1,
        ensures
            r@.map_values(|c: Vec<Individual>| views(c@)) == chunks_of(self.population_view(), workers as nat),
    {
        let len = self.population.len();
        let count = if workers <= len { workers } else { len };
        let size = len / count;
        let ghost pv = self.population_view();
        let mut r: Vec<Vec<Individual>> = Vec::with_capacity(count);
        let mut k: usize = 0;
        while k < count
            invariant
                len == pv.len(),
                pv == views(self.population@),
                len > 0,
                count == chunk_count(len as nat, workers as nat),
                size == len / count,
                k <= count,
                r@.len() == k,
                forall|j: int| 0 <= j < k ==> views((#[trigger] r@[j])@) == chunks_of(pv, workers as nat)[j],
            decreases count - k,
        {
            proof {
                lemma_chunk_boundary(len as nat, workers as nat, k as int);
                lemma_chunk_boundary(len as nat, workers as nat, k + 1);
            }
            let lo = k * size;
            let hi = if k + 1 >= count { len } else { (k + 1) * size };
            assert(lo == chunk_boundary(len as nat, workers as nat, k as int));
            assert(hi == chunk_boundary(len as nat, workers as nat, k + 1));
            let mut chunk: Vec<Individual> = Vec::with_capacity(hi - lo);
            let mut j: usize = lo;
            while j < hi
                invariant
                    lo <= j <= hi,
                    hi <= len,
                    len == self.population@.len(),
                    views(chunk@) == pv.subrange(lo as int, j as int),
                    pv == views(self.population@),
                decreases hi - j,
            {
                let ghost prev = views(chunk@);
                chunk.push(self.population[j].duplicate());
                assert(views(chunk@) =~= prev.push(pv[j as int]));
                assert(views(chunk@) =~= pv.subrange(lo as int, j + 1));
                j += 1;
            }
            r.push(chunk);
            k += 1;
        }
        assert(r@.map_values(|c: Vec<Individual>| views(c@)) =~= chunks_of(pv, workers as nat));
        r
    }

    /// The current population with every fitness computed against the target,
    /// chunk by chunk for `workers` workers and joined in order.
    pub fn evaluate_in_chunks(&self, workers: usize) -> (r: Vec<Individual>)
        requires
            self.well_formed(),
            workers >= 1,
        ensures
            views(r@) == evaluate_model(self.population_view(), self.target_view()),
    {
        let chunks = self.split_population(workers);
        let ghost cv = chunks@.map_values(|c: Vec<Individual>| views(c@));
        let mut done: Vec<Vec<Individual>> = Vec::with_capacity(chunks.len());
        let mut k: usize = 0;
        while k < chunks.len()
            invariant
                k <= chunks@.len(),
                done@.len() == k,
                cv == chunks@.map_values(|c: Vec<Individual>| views(c@)),
                cv == chunks_of(self.population_view(), workers as nat),
                self.well_formed(),
                forall|j: int| 0 <= j < k ==> views((#[trigger] done@[j])@) == evaluate_model(cv[j], self.target@),
            decreases chunks@.len() - k,
        {
            proof {
                let pv = self.population_view();
                lemma_chunk_boundary(pv.len(), workers as nat, k as int);
                assert forall|i: int| 0 <= i < chunks@[k as int]@.len() implies (#[trigger] chunks@[k as int]@[i]).genes_view().len() == self.target@.len() by {
                    let b = chunk_boundary(pv.len(), workers as nat, k as int);
                    let b1 = chunk_boundary(pv.len(), workers as nat, k + 1);
                    assert(cv[k as int] == views(chunks@[k as int]@));
                    assert(cv.len() == chunks@.len());
                    assert(chunks_of(pv, workers as nat)[k as int] == pv.subrange(b, b1));
                    assert(cv[k as int] == pv.subrange(b, b1));
                    assert(views(chunks@[k as int]@)[i] == chunks@[k as int]@[i]@);
                    assert(cv[k as int][i] == pv[b + i]);
                }
            }
            let e = evaluate_chunk(&chunks[k], self.target.as_slice());
            done.push(e);
            k += 1;
        }
        let r = join_chunks(done);
        proof {
            assert(done@.map_values(|c: Vec<Individual>| views(c@))
                =~= cv.map_values(|c: Seq<(Seq<u8>, nat)>| evaluate_model(c, self.target@)));
            lemma_chunked_evaluation(self.population_view(), self.target@, workers as nat);
        }
        r
    }

    /// Takes the evaluated population, sorts it by fitness with the best
    /// first, records the best fitness and says whether it reaches the
    /// convergence threshold.
    pub fn rank_population(&mut self, evaluated: Vec<Individual>) -> (converged: bool)
        requires
            old(self).well_formed(),
            views(evaluated@) == evaluate_model(old(self).population_view(), old(self).target_view()),
        ensures
            final(self).well_formed(),
            final(self).target_view() == old(self).target_view(),
            final(self).generation_view() == old(self).generation_view(),
            final(self).population_view().to_multiset() == views(evaluated@).to_multiset(),
            sorted_desc(final(self).population_view()),
            forall|i: int| 0 <= i < POPULATION_SIZE ==> (#[trigger] final(self).population_view()[i]).1
                == matches_of(final(self).population_view()[i].0, final(self).target_view()),
            final(self).best_view() == final(self).population_view()[0].1,
            final(self).best_view() >= matches_of(old(self).population_view()[0].0, old(self).target_view()),
            final(self).best_view() >= old(self).best_view(),
            forall|i: int| 0 <= i < POPULATION_SIZE ==> final(self).best_view()
                >= matches_of(#[trigger] old(self).population_view()[i].0, old(self).target_view()),
            exists|j: int| 0 <= j < POPULATION_SIZE && final(self).population_view()[0]
                == evaluate_one(#[trigger] old(self).population_view()[j], old(self).target_view()),
            final(self).quotes_view() == old(self).quotes_view(),
            converged == threshold_reached(final(self).best_view(), final(self).target_view().len()),
    {
        let sorted = sort_by_fitness(&evaluated);
        let ghost ev = views(evaluated@);
        let ghost sv = views(sorted@);
        let ghost t = self.target@;
        proof {
            assert forall|i: int| 0 <= i < sv.len() implies (#[trigger] sv[i]).0.len() == t.len()
                && all_symbols(sv[i].0) && sv[i].1 == matches_of(sv[i].0, t) by {
                vstd::seq_lib::to_multiset_contains(sv, sv[i]);
                vstd::seq_lib::to_multiset_contains(ev, sv[i]);
                let j = choose|j: int| 0 <= j < ev.len() && ev[j] == sv[i];
                assert(ev[j] == evaluate_one(self.population_view()[j], t));
            }
            vstd::seq_lib::to_multiset_contains(ev, ev[0]);
            vstd::seq_lib::to_multiset_contains(sv, ev[0]);
            let k = choose|k: int| 0 <= k < sv.len() && sv[k] == ev[0];
            assert forall|i: int| 0 <= i < POPULATION_SIZE implies sv[0].1
                >= matches_of(#[trigger] self.population_view()[i].0, t) by {
                vstd::seq_lib::to_multiset_contains(ev, ev[i]);
                vstd::seq_lib::to_multiset_contains(sv, ev[i]);
                let m = choose|m: int| 0 <= m < sv.len() && sv[m] == ev[i];
                if m > 0 {
                    assert(sv[0].1 >= sv[m].1);
                }
            }
            vstd::seq_lib::to_multiset_contains(sv, sv[0]);
            vstd::seq_lib::to_multiset_contains(ev, sv[0]);
            let j = choose|j: int| 0 <= j < ev.len() && ev[j] == sv[0];
            assert(sv[0] == evaluate_one(self.population_view()[j], t));
            assert(sv[0].1 >= sv[k].1);
        }
        self.population = sorted;
        self.best_score = self.population[0].score;
        reaches_threshold(self.best_score, self.target.len())
    }

    /// The position that a tournament over the drawn positions `draws`
    /// selects: the first drawn individual of highest fitness, or the first
    /// individual of the population when nothing was drawn.
    pub fn tournament_pick(&self, draws: &Vec<usize>) -> (r: usize)
        requires
            self.well_formed(),
            forall|i: int| 0 <= i < draws@.len() ==> #[trigger] draws@[i] < POPULATION_SIZE,
        ensures
            r == tournament_choice(self.population_view(), draws@),
            r < POPULATION_SIZE,
    {
        let ghost pv = self.population_view();
        let mut best: usize = 0;
        let mut found = false;
        let mut i: usize = 0;
        while i < draws.len()
            invariant
                i <= draws@.len(),
                pv == views(self.population@),
                pv.len() == POPULATION_SIZE,
                forall|j: int| 0 <= j < draws@.len() ==> #[trigger] draws@[j] < POPULATION_SIZE,
                found == (i > 0),
                found ==> best == tournament_winner(pv, draws@.subrange(0, i as int)),
                !found ==> best == 0,
                best < POPULATION_SIZE,
            decreases draws@.len() - i,
        {
            let d = draws[i];
            proof {
                assert(draws@.subrange(0, i + 1).drop_last() =~= draws@.subrange(0, i as int));
                assert(pv[d as int].1 == self.population@[d as int].score);
                assert(pv[best as int].1 == self.population@[best as int].score);
                lemma_tournament_winner_range(pv, draws@.subrange(0, i as int));
            }
            if !found || self.population[d].score > self.population[best].score {
                best = d;
            }
            found = true;
            i += 1;
        }
        assert(draws@.subrange(0, draws@.len() as int) =~= draws@);
        best
    }

    /// A copy of the winner of a tournament among `tournament_size`
    /// individuals drawn uniformly, with replacement, from the population.
    pub fn tournament_selection(&self, tournament_size: usize, rng: &mut SmallRng) -> (r: Individual)
        requires
            self.well_formed(),
        ensures
            exists|draws: Seq<usize>|
                draws.len() == tournament_size
                && (forall|i: int| 0 <= i < draws.len() ==> #[trigger] draws[i] < POPULATION_SIZE)
                && 0 <= tournament_choice(self.population_view(), draws) < POPULATION_SIZE
                && r@ == self.population_view()[#[trigger] tournament_choice(self.population_view(), draws)],
            r.well_formed(self.target_view().len()),
    {
        let mut draws: Vec<usize> = Vec::with_capacity(tournament_size);
        let mut i: usize = 0;
        assert(self.population@.len() == self.population_view().len());
        while i < tournament_size
            invariant
                self.population@.len() == POPULATION_SIZE,
                i <= tournament_size,
                draws@.len() == i,
                forall|j: int| 0 <= j < i ==> #[trigger] draws@[j] < POPULATION_SIZE,
            decreases tournament_size - i,
        {
            draws.push(draw_below(rng, self.population.len()));
            i += 1;
        }
        let k = self.tournament_pick(&draws);
        let r = self.population[k].duplicate();
        assert(r@ == self.population_view()[tournament_choice(self.population_view(), draws@)]);
        assert(self.population_view()[k as int] == self.population@[k as int]@);
        r
    }

    /// A copy of the winner of a tournament of `TOURNAMENT_SIZE` draws.
    fn select_parent(&self, rng: &mut SmallRng) -> (r: Individual)
        requires
            self.well_formed(),
        ensures
            exists|draws: Seq<usize>|
                valid_draws(draws) && r@ == self.population_view()[#[trigger] tournament_choice(self.population_view(), draws)],
            r.well_formed(self.target_view().len()),
    {
        self.tournament_selection(TOURNAMENT_SIZE, rng)
    }

    /// The child that a tournament over `d1`, another over `d2`, a cut at
    /// `split` and the mutation draws `rolls` and `picks` give.
    pub fn breed(&self, d1: &Vec<usize>, d2: &Vec<usize>, split: usize, rolls: &Vec<usize>, picks: &Vec<usize>) -> (r: Individual)
        requires
            self.well_formed(),
            valid_draws(d1@),
            valid_draws(d2@),
            split < self.target_view().len(),
            mutation_draws(rolls@, picks@, self.target_view().len()),
        ensures
            r.genes_view() == child_of(self.population_view(), d1@, d2@, split as int, rolls@, picks@),
            r.score_view() == 0,
            r.well_formed(self.target_view().len()),
    {
        let a = self.tournament_pick(d1);
        let b = self.tournament_pick(d2);
        assert(self.population_view()[a as int] == self.population@[a as int]@);
        assert(self.population_view()[b as int] == self.population@[b as int]@);
        let mut child = self.population[a].crossover_at(&self.population[b], split);
        let ghost before = child.genes_view();
        child.apply_mutation(rolls, picks, BASE_MUTATION_RATE);
        proof {
            lemma_mutated_facts(before, rolls@, picks@, BASE_MUTATION_RATE);
        }
        child
    }

    /// Replaces the population by the next generation: the best individual
    /// is kept as it is in the first place, and every other place takes the
    /// mutated child of two tournament winners, its fitness not yet computed.
    pub fn create_next_generation(&mut self, rng: &mut SmallRng)
        requires
            old(self).well_formed(),
        ensures
            final(self).well_formed(),
            final(self).target_view() == old(self).target_view(),
            final(self).best_view() == old(self).best_view(),
            final(self).generation_view() == old(self).generation_view(),
            final(self).quotes_view() == old(self).quotes_view(),
            final(self).population_view()[0] == old(self).population_view()[0],
            forall|i: int| 1 <= i < POPULATION_SIZE ==> (#[trigger] final(self).population_view()[i]).1 == 0
                && is_child(old(self).population_view(), old(self).target_view().len(), final(self).population_view()[i].0),
    {
        let ghost t = self.target@;
        let ghost pv = self.population_view();
        let mut next: Vec<Individual> = Vec::with_capacity(POPULATION_SIZE);
        let elite = self.population[0].duplicate();
        assert(self.population_view()[0] == self.population@[0]@);
        next.push(elite);
        while next.len() < POPULATION_SIZE
            invariant
                1 <= next@.len() <= POPULATION_SIZE,
                self.well_formed(),
                self.target@ == t,
                self.population_view() == pv,
                next@[0]@ == pv[0],
                forall|j: int| 0 <= j < next@.len() ==> (#[trigger] next@[j]).well_formed(t.len()),
                forall|j: int| 1 <= j < next@.len() ==> (#[trigger] next@[j]).score_view() == 0
                    && is_child(pv, t.len(), next@[j].genes_view()),
            decreases POPULATION_SIZE - next@.len(),
        {
            let parent1 = self.select_parent(rng);
            let parent2 = self.select_parent(rng);
            let mut child = parent1.crossover(&parent2, rng);
            let ghost crossed = child.genes_view();
            child.mutate(BASE_MUTATION_RATE, rng);
            proof {
                let d1 = choose|d1: Seq<usize>| valid_draws(d1) && parent1@ == pv[#[trigger] tournament_choice(pv, d1)];
                let d2 = choose|d2: Seq<usize>| valid_draws(d2) && parent2@ == pv[#[trigger] tournament_choice(pv, d2)];
                let sp = choose|sp: int| 0 <= sp < parent1.genes_view().len() && crossed == #[trigger] parent1.genes_view().subrange(0, sp)
                    + parent2.genes_view().subrange(sp, parent2.genes_view().len() as int);
                let (rolls, picks) = choose|rolls: Seq<usize>, picks: Seq<usize>|
                    rolls.len() == crossed.len() && picks.len() == crossed.len()
                    && (forall|i: int| 0 <= i < rolls.len() ==> #[trigger] rolls[i] < RATE_SCALE)
                    && (forall|i: int| 0 <= i < picks.len() ==> #[trigger] picks[i] < ALPHABET_SIZE)
                    && child.genes_view() == #[trigger] mutated(crossed, rolls, picks, BASE_MUTATION_RATE);
                lemma_tournament_winner_range(pv, d1);
                lemma_tournament_winner_range(pv, d2);
                assert(parent1.genes_view() == pv[tournament_choice(pv, d1)].0);
                assert(parent2.genes_view() == pv[tournament_choice(pv, d2)].0);
                assert(child.genes_view() == child_of(pv, d1, d2, sp, rolls, picks));
                assert(mutation_draws(rolls, picks, t.len()));
                assert(is_child(pv, t.len(), child.genes_view()));
            }
            next.push(child);
        }
        proof {
            assert forall|i: int| 0 <= i < views(next@).len() implies
                (#[trigger] views(next@)[i]).0.len() == t.len() && all_symbols(views(next@)[i].0) by {
                assert(views(next@)[i] == next@[i]@);
            }
            assert forall|i: int| 1 <= i < POPULATION_SIZE implies (#[trigger] views(next@)[i]).1 == 0
                && is_child(pv, t.len(), views(next@)[i].0) by {
                assert(views(next@)[i] == next@[i]@);
            }
        }
        self.population = next;
    }

    /// Counts one more completed generation.
    pub fn count_generation(&mut self)
        requires
            old(self).generation_view() < usize::MAX,
        ensures
            final(self).generation_view() == old(self).generation_view() + 1,
            final(self).target_view() == old(self).target_view(),
            final(self).population_view() == old(self).population_view(),
            final(self).best_view() == old(self).best_view(),
            final(self).quotes_view() == old(self).quotes_view(),
    {
        self.generation = self.generation + 1;
    }

    /// One whole generation: evaluates and ranks the population, replaces it
    /// by the next one and counts it, without checking for convergence.
    pub fn evolve_single_generation(&mut self, rng: &mut SmallRng)
        requires
            old(self).well_formed(),
            old(self).generation_view() < usize::MAX,
        ensures
            final(self).well_formed(),
            final(self).target_view() == old(self).target_view(),
            final(self).quotes_view() == old(self).quotes_view(),
            final(self).generation_view() == old(self).generation_view() + 1,
            final(self).best_view() >= old(self).best_view(),
            forall|i: int| 0 <= i < POPULATION_SIZE ==> final(self).best_view()
                >= matches_of(#[trigger] old(self).population_view()[i].0, old(self).target_view()),
            exists|j: int| 0 <= j < POPULATION_SIZE && final(self).population_view()[0]
                == evaluate_one(#[trigger] old(self).population_view()[j], old(self).target_view()),
            final(self).population_view()[0].1 == final(self).best_view(),
            final(self).population_view()[0].1 == matches_of(final(self).population_view()[0].0, final(self).target_view()),
            forall|i: int| 1 <= i < POPULATION_SIZE ==> (#[trigger] final(self).population_view()[i]).1 == 0,
            exists|ranked: Seq<(Seq<u8>, nat)>| #[trigger] ranking_of(ranked, old(self).population_view(), old(self).target_view())
                && bred_from(ranked, old(self).target_view().len(), final(self).population_view()),
    {
        let evaluated = self.evaluate_in_chunks(1);
        self.rank_population(evaluated);
        let ghost ranked = self.population_view();
        self.create_next_generation(rng);
        self.count_generation();
        proof {
            assert forall|i: int| 1 <= i < POPULATION_SIZE implies (#[trigger] self.population_view()[i]).1 == 0 by {
                assert(is_child(ranked, self.target_view().len(), self.population_view()[i].0));
            }
            assert(ranking_of(ranked, old(self).population_view(), old(self).target_view()));
            assert(bred_from(ranked, old(self).target_view().len(), self.population_view()));
        }
    }

    /// The target string.
    pub fn target(&self) -> (r: &Vec<u8>)
        ensures
            r@ == self.target_view(),
    {
        &self.target
    }

    /// The current population.
    pub fn population(&self) -> (r: &Vec<Individual>)
        ensures
            views(r@) == self.population_view(),
    {
        &self.population
    }

    /// The best fitness numerator recorded at the last ranking.
    pub fn best_score(&self) -> (r: usize)
        ensures
            r == self.best_view(),
    {
        self.best_score
    }

    /// The number of generations completed.
    pub fn generation(&self) -> (r: usize)
        ensures
            r == self.generation_view(),
    {
        self.generation
    }

    /// The quotes shown alongside the evolving text.
    pub fn quotes(&self) -> (r: &Vec<Quote>)
        ensures
            r@ == self.quotes_view(),
    {
        &self.quotes
    }
}

} // verus!
