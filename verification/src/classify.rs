//! The consequence classifier: from the annotations of a record to its most
//! severe consequence.

use crate::error::ConvertError;
use crate::groups::{group_of, variant_group};
use crate::line::UNRANKED;
use crate::severity::{rank_of, SeverityTable};
use crate::text::{field_of, nth_field, rows, split, split_bytes};
use vstd::prelude::*;
use vstd::slice::slice_to_vec;

verus! {

/// The byte between the fields of an annotation.
pub const ANNOTATION_SEPARATOR: u8 = 124;

/// The byte between the consequence terms of one annotation.
pub const TERM_SEPARATOR: u8 = 38;

/// The field of an annotation that lists its consequence terms.
pub const CONSEQUENCE_FIELD: usize = 1;

/// The field of an annotation that names the variant's class.
pub const CLASS_FIELD: usize = 21;

/// The consequence terms of one annotation.
pub open spec fn terms_of(annotation: Seq<u8>) -> Seq<Seq<u8>> {
    split(nth_field(annotation, ANNOTATION_SEPARATOR, CONSEQUENCE_FIELD as nat), TERM_SEPARATOR)
}

/// The variant class that one annotation names.
pub open spec fn class_of(annotation: Seq<u8>) -> Seq<u8> {
    nth_field(annotation, ANNOTATION_SEPARATOR, CLASS_FIELD as nat)
}

/// Each of the terms, paired with `class`.
pub open spec fn tagged(terms: Seq<Seq<u8>>, class: Seq<u8>) -> Seq<(Seq<u8>, Seq<u8>)> {
    terms.map_values(|t: Seq<u8>| (t, class))
}

/// The consequence terms of all the annotations, in reading order, each
/// with the variant class of its annotation.
pub open spec fn labelled_terms(annotations: Seq<Seq<u8>>) -> Seq<(Seq<u8>, Seq<u8>)>
    decreases annotations.len(),
{
    if annotations.len() == 0 {
        Seq::<(Seq<u8>, Seq<u8>)>::empty()
    } else {
        labelled_terms(annotations.drop_last()) + tagged(
            terms_of(annotations.last()),
            class_of(annotations.last()),
        )
    }
}

/// What a classification holds.
pub struct ClassView {
    pub group: u8,
    pub consequence: Seq<u8>,
    pub rank: u8,
    pub variety: Seq<u8>,
}

/// The classification of a record none of whose terms ranks below
/// `UNRANKED`.
pub open spec fn unclassified() -> ClassView {
    ClassView {
        group: 0,
        consequence: Seq::<u8>::empty(),
        rank: UNRANKED,
        variety: Seq::<u8>::empty(),
    }
}

/// Whether the table gives every term a rank.
pub open spec fn all_ranked(table: Map<Seq<u8>, Seq<u8>>, terms: Seq<(Seq<u8>, Seq<u8>)>) -> bool {
    forall|k: int| 0 <= k < terms.len() ==> rank_of(table, (#[trigger] terms[k]).0) is Some
}

/// The classification after the terms have been read one by one: a term
/// takes over when its rank is strictly lower than the lowest so far.
pub open spec fn most_severe(
    table: Map<Seq<u8>, Seq<u8>>,
    terms: Seq<(Seq<u8>, Seq<u8>)>,
) -> ClassView
    decreases terms.len(),
{
    if terms.len() == 0 {
        unclassified()
    } else {
        let before = most_severe(table, terms.drop_last());
        let (term, class) = terms.last();
        match rank_of(table, term) {
            Some(rank) => if rank < before.rank {
                ClassView { group: group_of(term), consequence: term, rank, variety: class }
            } else {
                before
            },
            None => before,
        }
    }
}

/// The classification of a record with these annotations; `None` when the
/// table gives one of their terms no rank.
pub open spec fn classified(table: Map<Seq<u8>, Seq<u8>>, annotations: Seq<Seq<u8>>) -> Option<
    ClassView,
> {
    let terms = labelled_terms(annotations);
    if all_ranked(table, terms) {
        Some(most_severe(table, terms))
    } else {
        None
    }
}

/// Whether term `k` has a rank below `UNRANKED` that is the lowest of all,
/// and is the first term to have it.
pub open spec fn wins(
    table: Map<Seq<u8>, Seq<u8>>,
    terms: Seq<(Seq<u8>, Seq<u8>)>,
    k: int,
) -> bool {
    &&& 0 <= k < terms.len()
    &&& rank_of(table, terms[k].0)->0 < UNRANKED
    &&& forall|j: int|
        0 <= j < terms.len() ==> rank_of(table, terms[k].0)->0 <= rank_of(
            table,
            (#[trigger] terms[j]).0,
        )->0
    &&& forall|j: int|
        0 <= j < k ==> rank_of(table, terms[k].0)->0 < rank_of(table, (#[trigger] terms[j]).0)->0
}

/// The classification that term `k` gives.
pub open spec fn class_at(
    table: Map<Seq<u8>, Seq<u8>>,
    terms: Seq<(Seq<u8>, Seq<u8>)>,
    k: int,
) -> ClassView {
    ClassView {
        group: group_of(terms[k].0),
        consequence: terms[k].0,
        rank: rank_of(table, terms[k].0)->0,
        variety: terms[k].1,
    }
}

/// Whether no term ranks below `UNRANKED`.
pub open spec fn none_ranks(table: Map<Seq<u8>, Seq<u8>>, terms: Seq<(Seq<u8>, Seq<u8>)>) -> bool {
    forall|j: int|
        0 <= j < terms.len() ==> rank_of(table, (#[trigger] terms[j]).0)->0 >= UNRANKED
}

/// The lowest rank wins, and of equal ranks the first. When every term has
/// a rank, either none ranks below `UNRANKED` and the classification is
/// `unclassified()`, or one term wins and the classification is the one
/// that it gives.
pub proof fn lemma_first_lowest_rank_wins(
    table: Map<Seq<u8>, Seq<u8>>,
    terms: Seq<(Seq<u8>, Seq<u8>)>,
)
    requires
        all_ranked(table, terms),
    ensures
        none_ranks(table, terms) ==> most_severe(table, terms) == unclassified(),
        !none_ranks(table, terms) ==> exists|k: int| #[trigger] wins(table, terms, k),
        forall|k: int| #[trigger]
            wins(table, terms, k) ==> most_severe(table, terms) == class_at(table, terms, k),
    decreases terms.len(),
{
    if terms.len() > 0 {
        let front = terms.drop_last();
        assert forall|j: int| 0 <= j < front.len() implies rank_of(
            table,
            (#[trigger] front[j]).0,
        ) is Some by {
            assert(front[j] == terms[j]);
        }
        lemma_first_lowest_rank_wins(table, front);
        let before = most_severe(table, front);
        let last = terms.len() - 1;
        let rank = rank_of(table, terms[last].0)->0;
        assert forall|j: int| 0 <= j < front.len() implies front[j] == terms[j] by {
        }
        if none_ranks(table, front) {
            if rank < UNRANKED {
                assert(wins(table, terms, last));
                assert forall|k: int| #[trigger] wins(table, terms, k) implies k == last by {
                    if k < last {
                        assert(front[k] == terms[k]);
                    }
                }
            } else {
                assert(none_ranks(table, terms)) by {
                    assert forall|j: int| 0 <= j < terms.len() implies rank_of(
                        table,
                        (#[trigger] terms[j]).0,
                    )->0 >= UNRANKED by {
                        if j < last {
                            assert(front[j] == terms[j]);
                        }
                    }
                }
                assert forall|k: int| #[trigger] wins(table, terms, k) implies false by {
                    assert(rank_of(table, terms[k].0)->0 >= UNRANKED);
                }
            }
        } else {
            let k0 = choose|k: int| #[trigger] wins(table, front, k);
            assert(front[k0] == terms[k0]);
            assert(before == class_at(table, front, k0));
            let winner = if rank < before.rank {
                last
            } else {
                k0
            };
            assert(wins(table, terms, winner)) by {
                assert forall|j: int| 0 <= j < terms.len() implies rank_of(
                    table,
                    terms[winner].0,
                )->0 <= rank_of(table, (#[trigger] terms[j]).0)->0 by {
                    if j < last {
                        assert(front[j] == terms[j]);
                    }
                }
                assert forall|j: int| 0 <= j < winner implies rank_of(table, terms[winner].0)->0
                    < rank_of(table, (#[trigger] terms[j]).0)->0 by {
                    assert(front[j] == terms[j]);
                }
            }
            assert(!none_ranks(table, terms));
            assert forall|k: int| #[trigger] wins(table, terms, k) implies k == winner by {
                if k < winner {
                    assert(rank_of(table, terms[winner].0)->0 < rank_of(table, terms[k].0)->0);
                    assert(rank_of(table, terms[k].0)->0 <= rank_of(table, terms[winner].0)->0);
                } else if k > winner {
                    assert(rank_of(table, terms[k].0)->0 < rank_of(table, terms[winner].0)->0);
                    assert(rank_of(table, terms[winner].0)->0 <= rank_of(table, terms[k].0)->0);
                }
            }
        }
    } else {
        assert forall|k: int| #[trigger] wins(table, terms, k) implies false by {
        }
    }
}

/// The terms of the first `n` annotations are the first of the terms of
/// all.
proof fn lemma_labelled_prefix(annotations: Seq<Seq<u8>>, n: int)
    requires
        0 <= n <= annotations.len(),
    ensures
        labelled_terms(annotations.take(n)).len() <= labelled_terms(annotations).len(),
        labelled_terms(annotations).take(labelled_terms(annotations.take(n)).len() as int)
            == labelled_terms(annotations.take(n)),
    decreases annotations.len(),
{
    let whole = labelled_terms(annotations);
    if n == annotations.len() {
        assert(annotations.take(n) =~= annotations);
        assert(whole.take(whole.len() as int) =~= whole);
    } else {
        let front = annotations.drop_last();
        lemma_labelled_prefix(front, n);
        assert(front.take(n) =~= annotations.take(n));
        let part = labelled_terms(annotations.take(n));
        assert(whole.take(part.len() as int) =~= labelled_terms(front).take(part.len() as int));
    }
}

/// The most severe consequence of a record, with the variant class that
/// came with it.
#[derive(Debug)]
pub struct Classification {
    pub group: u8,
    pub consequence: Vec<u8>,
    pub rank: u8,
    pub variety: Vec<u8>,
}

impl View for Classification {
    type V = ClassView;

    open spec fn view(&self) -> ClassView {
        ClassView {
            group: self.group,
            consequence: self.consequence@,
            rank: self.rank,
            variety: self.variety@,
        }
    }
}

/// Classifies a record by its annotations. Each annotation lists, in its
/// second field, consequence terms joined by `&`, and names, in its
/// twenty-second field, the variant's class. The term with the lowest rank
/// in the table wins, and of equal ranks the first; its group and the class
/// of its annotation come with it.
pub fn classify(annotations: &Vec<Vec<u8>>, table: &SeverityTable) -> (found: Result<
    Classification,
    ConvertError,
>)
    ensures
        match found {
            Ok(c) => classified(table@, rows(annotations@)) == Some(c@),
            Err(e) => e == ConvertError::BadRank && classified(table@, rows(annotations@))
                is None,
        },
{
    let ghost all = rows(annotations@);
    let mut best = Classification {
        group: 0,
        consequence: Vec::new(),
        rank: UNRANKED,
        variety: Vec::new(),
    };
    let mut i: usize = 0;
    assert(all.take(0) =~= Seq::<Seq<u8>>::empty());
    while i < annotations.len()
        invariant
            0 <= i <= annotations@.len(),
            all == rows(annotations@),
            all_ranked(table@, labelled_terms(all.take(i as int))),
            best@ == most_severe(table@, labelled_terms(all.take(i as int))),
        decreases annotations@.len() - i,
    {
        let consequence = field_of(
            annotations[i].as_slice(),
            ANNOTATION_SEPARATOR,
            CONSEQUENCE_FIELD,
        );
        let class = field_of(annotations[i].as_slice(), ANNOTATION_SEPARATOR, CLASS_FIELD);
        let terms = split_bytes(consequence.as_slice(), TERM_SEPARATOR);
        let ghost base = labelled_terms(all.take(i as int));
        let ghost here = tagged(terms_of(all[i as int]), class_of(all[i as int]));
        proof {
            assert(all[i as int] == annotations@[i as int]@);
            let now = all.take(i + 1);
            assert(now.drop_last() =~= all.take(i as int));
            assert(labelled_terms(now) == base + here);
            assert(base + here.take(0) =~= base);
        }
        let mut j: usize = 0;
        while j < terms.len()
            invariant
                0 <= j <= terms@.len(),
                here.len() == terms@.len(),
                here == tagged(rows(terms@), class@),
                0 <= i < annotations@.len(),
                all == rows(annotations@),
                labelled_terms(all.take(i + 1)) == base + here,
                all_ranked(table@, base + here.take(j as int)),
                best@ == most_severe(table@, base + here.take(j as int)),
            decreases terms@.len() - j,
        {
            let term = &terms[j];
            let ghost upto = base + here.take(j + 1);
            proof {
                assert(upto.drop_last() =~= base + here.take(j as int));
                assert(upto.last() == (term@, class@)) by {
                    assert(rows(terms@)[j as int] == term@);
                }
            }
            match table.rank(term.as_slice()) {
                Some(rank) => {
                    if rank < best.rank {
                        best = Classification {
                            group: variant_group(term.as_slice()),
                            consequence: slice_to_vec(term.as_slice()),
                            rank,
                            variety: slice_to_vec(class.as_slice()),
                        };
                    }
                    assert(all_ranked(table@, upto)) by {
                        assert forall|k: int| 0 <= k < upto.len() implies rank_of(
                            table@,
                            (#[trigger] upto[k]).0,
                        ) is Some by {
                            if k < upto.len() - 1 {
                                assert(upto[k] == upto.drop_last()[k]);
                            }
                        }
                    }
                },
                None => {
                    proof {
                        let whole = labelled_terms(all);
                        let part = labelled_terms(all.take(i + 1));
                        lemma_labelled_prefix(all, i + 1);
                        let at = base.len() + j;
                        assert(part[at] == upto.last());
                        assert(whole[at] == whole.take(part.len() as int)[at]);
                        assert(rank_of(table@, whole[at].0) is None);
                    }
                    return Err(ConvertError::BadRank);
                },
            }
            j += 1;
        }
        assert(here.take(j as int) =~= here);
        i += 1;
    }
    assert(all.take(i as int) =~= all);
    Ok(best)
}

} // verus!
