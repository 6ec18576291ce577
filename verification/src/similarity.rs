//! The combined similarity of two catalog entries.

use vstd::prelude::*;
use crate::movie::Movie;
use crate::score::SCALE;
use crate::metrics::{
    categorical_exact, country_similarity, numeric_proximity, multi_value_overlap,
    lemma_overlap_bounded, analyze_type, analyze_director, analyze_country,
    analyze_release_year, analyze_rating, analyze_listed_in,
};

verus! {

/// The sum of the six attribute scores of a pair of entries.
pub open spec fn attribute_total(a: Movie, b: Movie) -> nat {
    categorical_exact(a.movie_type@, b.movie_type@) + categorical_exact(a.director@, b.director@)
        + country_similarity(a.country@, b.country@) + numeric_proximity(
        a.release_year,
        b.release_year,
    ) + categorical_exact(a.rating@, b.rating@) + multi_value_overlap(a.listed_in@, b.listed_in@)
}

/// The combined similarity of a pair of entries: the mean of the six
/// attribute scores, rounded down.
pub open spec fn similarity(a: Movie, b: Movie) -> nat {
    attribute_total(a, b) / 6
}

/// The combined similarity lies between zero and one whole unit.
pub proof fn lemma_similarity_bounded(a: Movie, b: Movie)
    ensures
        similarity(a, b) <= SCALE,
{
    lemma_overlap_bounded(a.listed_in@, b.listed_in@);
}

/// The combined similarity does not depend on the order of the pair.
pub proof fn lemma_similarity_symmetric(a: Movie, b: Movie)
    ensures
        similarity(a, b) == similarity(b, a),
{
    crate::metrics::lemma_overlap_symmetric(a.listed_in@, b.listed_in@);
    crate::metrics::lemma_country_symmetric(a.country@, b.country@);
    crate::metrics::lemma_year_symmetric(a.release_year, b.release_year);
}

/// Scores how alike two entries are, from zero (nothing in common) to one
/// whole unit (all six attributes match).
pub fn calculate_similarity(movie1: &Movie, movie2: &Movie) -> (score: u64)
    ensures
        score == similarity(*movie1, *movie2),
        score <= SCALE,
{
    let mut total: u64 = 0;
    total = total + analyze_type(movie1.movie_type.as_str(), movie2.movie_type.as_str());
    total = total + analyze_director(movie1.director.as_str(), movie2.director.as_str());
    total = total + analyze_country(movie1.country.as_str(), movie2.country.as_str());
    total = total + analyze_release_year(movie1.release_year, movie2.release_year);
    total = total + analyze_rating(movie1.rating.as_str(), movie2.rating.as_str());
    total = total + analyze_listed_in(movie1.listed_in.as_str(), movie2.listed_in.as_str());
    total / 6
}

/// Whether `at` is the place of the first entry titled `title`.
pub open spec fn first_titled(items: Seq<Movie>, title: Seq<char>, at: int) -> bool {
    &&& 0 <= at < items.len()
    &&& items[at].title@ == title
    &&& forall|j: int| 0 <= j < at ==> (#[trigger] items[j]).title@ != title
}

/// The entries among the first `n` whose title differs from that of
/// `chosen`, each as its title with its similarity to `chosen`, in order.
pub open spec fn scored_others(items: Seq<Movie>, chosen: Movie, n: int) -> Seq<(Seq<char>, nat)>
    decreases n,
{
    if n <= 0 {
        Seq::empty()
    } else if items[n - 1].title@ != chosen.title@ {
        scored_others(items, chosen, n - 1).push(
            (items[n - 1].title@, similarity(chosen, items[n - 1])),
        )
    } else {
        scored_others(items, chosen, n - 1)
    }
}

/// The model of a list of titles with scores.
pub open spec fn scored_views(list: Seq<(String, u64)>) -> Seq<(Seq<char>, nat)> {
    Seq::new(list.len(), |k: int| (list[k].0@, list[k].1 as nat))
}

/// Scores every entry with another title against the first entry titled
/// `title`. Gives nothing where no entry carries the title.
pub fn similar_titles(movies: &Vec<Movie>, title: &str) -> (found: Option<Vec<(String, u64)>>)
    ensures
        found is None <==> forall|j: int| 0 <= j < movies.len() ==> (#[trigger] movies[j]).title@
            != title@,
        found is Some ==> exists|at: int| #[trigger]
            first_titled(movies@, title@, at) && scored_views(found->0@) == scored_others(
                movies@,
                movies[at],
                movies.len() as int,
            ),
{
    let key: String = title.to_owned();
    let mut at: usize = 0;
    while at < movies.len() && movies[at].title != key
        invariant
            at <= movies.len(),
            key@ == title@,
            forall|j: int| 0 <= j < at ==> (#[trigger] movies[j]).title@ != title@,
        decreases movies.len() - at,
    {
        at += 1;
    }
    if at == movies.len() {
        return None;
    }
    assert(first_titled(movies@, title@, at as int));
    let chosen = &movies[at];
    let mut list: Vec<(String, u64)> = Vec::new();
    let mut j: usize = 0;
    assert(scored_views(list@) =~= scored_others(movies@, *chosen, 0));
    while j < movies.len()
        invariant
            j <= movies.len(),
            at < movies.len(),
            *chosen == movies[at as int],
            scored_views(list@) == scored_others(movies@, *chosen, j as int),
        decreases movies.len() - j,
    {
        if movies[j].title != chosen.title {
            let score = calculate_similarity(chosen, &movies[j]);
            let ghost before = scored_views(list@);
            list.push((movies[j].title.clone(), score));
            assert(scored_views(list@) =~= before.push((movies[j as int].title@, score as nat)));
        }
        j += 1;
    }
    Some(list)
}

} // verus!
