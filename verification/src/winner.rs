use vstd::prelude::*;

verus! {

/// How the game stands once a turn is over.
#[derive(Debug, PartialEq, Eq, Hash)]
pub enum EndGameCondition {
    /// The game is over and one player has the highest score.
    Winner(usize),
    /// The game is over and these players share the highest score.
    Tie(Vec<usize>),
    /// Nobody has run out of cards yet.
    Continue,
}

/// An `EndGameCondition` as a plain value.
pub enum Outcome {
    Winner(usize),
    Tie(Seq<usize>),
    Continue,
}

impl View for EndGameCondition {
    type V = Outcome;

    open spec fn view(&self) -> Outcome {
        match self {
            EndGameCondition::Winner(player) => Outcome::Winner(*player),
            EndGameCondition::Tie(players) => Outcome::Tie(players@),
            EndGameCondition::Continue => Outcome::Continue,
        }
    }
}

impl Clone for EndGameCondition {
    fn clone(&self) -> (copy: EndGameCondition)
        ensures
            copy@ == self@,
    {
        match self {
            EndGameCondition::Winner(player) => EndGameCondition::Winner(*player),
            EndGameCondition::Tie(players) => EndGameCondition::Tie(players.clone()),
            EndGameCondition::Continue => EndGameCondition::Continue,
        }
    }
}

/// No player has a higher score than player `i`.
pub open spec fn is_leader(scores: Seq<u32>, i: int) -> bool {
    &&& 0 <= i < scores.len()
    &&& forall|j: int| 0 <= j < scores.len() ==> scores[j] <= scores[i]
}

/// The leaders among the first `n` players, in rising order.
pub open spec fn leaders_below(scores: Seq<u32>, n: nat) -> Seq<usize>
    decreases n,
{
    if n == 0 {
        Seq::empty()
    } else if is_leader(scores, n - 1) {
        leaders_below(scores, (n - 1) as nat).push((n - 1) as usize)
    } else {
        leaders_below(scores, (n - 1) as nat)
    }
}

/// The players with the highest score, in rising order.
pub open spec fn leaders(scores: Seq<u32>) -> Seq<usize> {
    leaders_below(scores, scores.len())
}

/// The outcome on the scores alone: the one leader wins, several leaders
/// tie, and without players there is nothing to decide.
pub open spec fn score_outcome(scores: Seq<u32>) -> Outcome {
    let best = leaders(scores);
    if best.len() == 0 {
        Outcome::Continue
    } else if best.len() == 1 {
        Outcome::Winner(best[0])
    } else {
        Outcome::Tie(best)
    }
}

/// Some hand is empty.
pub open spec fn some_hand_empty(hand_sizes: Seq<usize>) -> bool {
    exists|i: int| 0 <= i < hand_sizes.len() && hand_sizes[i] == 0
}

/// The state of the game after a turn: it goes on while every player holds
/// cards; once a hand is empty the scores decide.
pub open spec fn end_condition(hand_sizes: Seq<usize>, scores: Seq<u32>) -> Outcome {
    if some_hand_empty(hand_sizes) {
        score_outcome(scores)
    } else {
        Outcome::Continue
    }
}

/// The leaders below `n` are below `n`, and they are the leaders.
pub proof fn lemma_leaders_below(scores: Seq<u32>, n: nat)
    requires
        n <= scores.len(),
        scores.len() <= usize::MAX,
    ensures
        leaders_below(scores, n).len() <= n,
        forall|k: int|
            0 <= k < leaders_below(scores, n).len() ==> {
                &&& (#[trigger] leaders_below(scores, n)[k]) < n
                &&& is_leader(scores, leaders_below(scores, n)[k] as int)
            },
        forall|k: int, l: int|
            0 <= k < l < leaders_below(scores, n).len() ==> leaders_below(scores, n)[k]
                < leaders_below(scores, n)[l],
        forall|i: int|
            0 <= i < n && is_leader(scores, i) ==> leaders_below(scores, n).contains(i as usize),
    decreases n,
{
    if n > 0 {
        let before = leaders_below(scores, (n - 1) as nat);
        let now = leaders_below(scores, n);
        lemma_leaders_below(scores, (n - 1) as nat);
        assert forall|i: int| 0 <= i < n && is_leader(scores, i) implies now.contains(
            i as usize,
        ) by {
            if i == n - 1 {
                assert(now[now.len() - 1] == i as usize);
            } else {
                assert(before.contains(i as usize));
                let k = choose|k: int| 0 <= k < before.len() && before[k] == i as usize;
                assert(now[k] == i as usize);
            }
        }
    }
}

/// Among the first `n` players, one has the highest score.
pub proof fn lemma_best_below(scores: Seq<u32>, n: nat) -> (best: int)
    requires
        0 < n <= scores.len(),
    ensures
        0 <= best < n,
        forall|j: int| 0 <= j < n ==> scores[j] <= scores[best],
    decreases n,
{
    if n == 1 {
        0
    } else {
        let before = lemma_best_below(scores, (n - 1) as nat);
        if scores[n - 1] > scores[before] {
            n - 1
        } else {
            before
        }
    }
}

/// Where there are players, the scores decide: one of them leads.
pub proof fn lemma_scores_decide(scores: Seq<u32>)
    requires
        0 < scores.len() <= usize::MAX,
    ensures
        leaders(scores).len() > 0,
        !(score_outcome(scores) is Continue),
{
    let best = lemma_best_below(scores, scores.len());
    assert(is_leader(scores, best));
    lemma_leaders_below(scores, scores.len());
    assert(leaders(scores).contains(best as usize));
}

/// The highest score among `scores`, for at least one player.
fn max_score(scores: &Vec<u32>) -> (best: u32)
    requires
        scores@.len() > 0,
    ensures
        forall|j: int| 0 <= j < scores@.len() ==> scores@[j] <= best,
        exists|j: int| 0 <= j < scores@.len() && scores@[j] == best,
{
    let mut best: u32 = scores[0];
    let mut i: usize = 1;
    while i < scores.len()
        invariant
            1 <= i <= scores.len(),
            forall|j: int| 0 <= j < i ==> scores@[j] <= best,
            exists|j: int| 0 <= j < i && scores@[j] == best,
        decreases scores.len() - i,
    {
        if scores[i] > best {
            best = scores[i];
        }
        i += 1;
    }
    best
}

/// The players with the highest score, in rising order.
pub fn indices_of_max_score(scores: &Vec<u32>) -> (best: Vec<usize>)
    ensures
        best@ == leaders(scores@),
        scores@.len() > 0 ==> best@.len() > 0,
{
    let mut best: Vec<usize> = Vec::new();
    if scores.len() == 0 {
        return best;
    }
    let top = max_score(scores);
    let mut i: usize = 0;
    while i < scores.len()
        invariant
            i <= scores.len(),
            forall|j: int| 0 <= j < scores@.len() ==> scores@[j] <= top,
            exists|j: int| 0 <= j < scores@.len() && scores@[j] == top,
            best@ == leaders_below(scores@, i as nat),
        decreases scores.len() - i,
    {
        if scores[i] == top {
            assert(is_leader(scores@, i as int));
            best.push(i);
        } else {
            assert(!is_leader(scores@, i as int));
        }
        i += 1;
    }
    proof {
        lemma_leaders_below(scores@, scores@.len());
        let j = choose|j: int| 0 <= j < scores@.len() && scores@[j] == top;
        assert(is_leader(scores@, j));
        assert(best@.contains(j as usize));
    }
    best
}

/// Decides the game on the scores: see `score_outcome`.
pub fn winner_by_scores(scores: &Vec<u32>) -> (result: EndGameCondition)
    ensures
        result@ == score_outcome(scores@),
{
    let best = indices_of_max_score(scores);
    if best.len() == 0 {
        EndGameCondition::Continue
    } else if best.len() == 1 {
        EndGameCondition::Winner(best[0])
    } else {
        EndGameCondition::Tie(best)
    }
}

/// The state of the game given the size of each hand and each score: see
/// `end_condition`.
pub fn end_of_game(hand_sizes: &Vec<usize>, scores: &Vec<u32>) -> (result: EndGameCondition)
    ensures
        result@ == end_condition(hand_sizes@, scores@),
{
    let mut i: usize = 0;
    while i < hand_sizes.len()
        invariant
            i <= hand_sizes.len(),
            forall|j: int| 0 <= j < i ==> hand_sizes@[j] != 0,
        decreases hand_sizes.len() - i,
    {
        if hand_sizes[i] == 0 {
            return winner_by_scores(scores);
        }
        i += 1;
    }
    EndGameCondition::Continue
}

} // verus!
