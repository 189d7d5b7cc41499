use vstd::prelude::*;
use crate::text::same_text;
use crate::types::{alignment_of, Alignment, DecodingError, QuestStatus, Role, VictoryType};

verus! {

/// One mission of a game: its outcome, how many sabotaged it, and who went.
#[derive(Debug)]
pub struct Quest {
    pub status: QuestStatus,
    pub fails: Option<i32>,
    pub participants: Vec<String>,
}

/// The declared winning faction and how it won.
#[derive(Clone, Copy, Debug, PartialEq, Eq, Structural)]
pub struct EndResult {
    pub winner: Alignment,
    pub victory_type: VictoryType,
}

/// A finished game: who held which role, the quests in play order, and the result.
#[derive(Debug)]
pub struct GameInfo {
    pub players: Vec<(String, Role)>,
    pub quests: Vec<Quest>,
    pub result: EndResult,
}

/// The text of each string in a sequence.
pub open spec fn texts(v: Seq<String>) -> Seq<Seq<char>> {
    v.map_values(|s: String| s@)
}

/// The names of all players, in table order.
pub open spec fn player_names(ps: Seq<(String, Role)>) -> Seq<Seq<char>> {
    ps.map_values(|p: (String, Role)| p.0@)
}

/// The names of the players whose role belongs to faction `a`, in table order.
pub open spec fn names_with(ps: Seq<(String, Role)>, a: Alignment) -> Seq<Seq<char>>
    decreases ps.len(),
{
    if ps.len() == 0 {
        Seq::empty()
    } else {
        let rest = names_with(ps.drop_last(), a);
        if alignment_of(ps.last().1) == a {
            rest.push(ps.last().0@)
        } else {
            rest
        }
    }
}

/// No two players share a name.
pub open spec fn names_unique(ps: Seq<(String, Role)>) -> bool {
    forall|i: int, j: int| 0 <= i < ps.len() && 0 <= j < ps.len() && i != j ==> ps[i].0@ != ps[j].0@
}

/// Every quest participant is a player of the game.
pub open spec fn participants_known(ps: Seq<(String, Role)>, qs: Seq<Quest>) -> bool {
    forall|q: int, k: int|
        0 <= q < qs.len() && 0 <= k < qs[q].participants@.len() ==> player_names(ps).contains(
            #[trigger] qs[q].participants@[k]@,
        )
}

fn has_player(ps: &Vec<(String, Role)>, name: &String) -> (r: bool)
    ensures
        r == player_names(ps@).contains(name@),
{
    let mut i: usize = 0;
    while i < ps.len()
        invariant
            i <= ps@.len(),
            forall|j: int| 0 <= j < i ==> ps@[j].0@ != name@,
        decreases ps@.len() - i,
    {
        if same_text(&ps[i].0, name) {
            assert(player_names(ps@)[i as int] == name@);
            return true;
        }
        i = i + 1;
    }
    proof {
        if player_names(ps@).contains(name@) {
            let j = choose|j: int| 0 <= j < player_names(ps@).len() && player_names(ps@)[j] == name@;
            assert(ps@[j].0@ == name@);
        }
    }
    false
}

impl GameInfo {
    /// Assembles a game, refusing two players of one name and a quest
    /// participant who is not a player.
    pub fn new(players: Vec<(String, Role)>, quests: Vec<Quest>, result: EndResult) -> (r: Result<
        GameInfo,
        DecodingError,
    >)
        ensures
            r is Ok <==> names_unique(players@) && participants_known(players@, quests@),
            r matches Ok(g) ==> g.players == players && g.quests == quests && g.result == result,
            r matches Err(e) ==> (e == DecodingError::DuplicatePlayer <==> !names_unique(players@)),
            r matches Err(e) ==> e == DecodingError::DuplicatePlayer || e
                == DecodingError::UnknownParticipant,
    {
        let mut i: usize = 0;
        while i < players.len()
            invariant
                i <= players@.len(),
                forall|a: int, b: int|
                    0 <= a < i && 0 <= b < i && a != b ==> players@[a].0@ != players@[b].0@,
            decreases players@.len() - i,
        {
            let mut j: usize = 0;
            while j < i
                invariant
                    i < players@.len(),
                    j <= i,
                    forall|b: int| 0 <= b < j ==> players@[b].0@ != players@[i as int].0@,
                decreases i - j,
            {
                if same_text(&players[j].0, &players[i].0) {
                    assert(!names_unique(players@));
                    return Err(DecodingError::DuplicatePlayer);
                }
                j = j + 1;
            }
            i = i + 1;
        }
        assert(names_unique(players@));
        let mut q: usize = 0;
        while q < quests.len()
            invariant
                q <= quests@.len(),
                names_unique(players@),
                forall|a: int, k: int|
                    0 <= a < q && 0 <= k < quests@[a].participants@.len() ==> player_names(
                        players@,
                    ).contains(#[trigger] quests@[a].participants@[k]@),
            decreases quests@.len() - q,
        {
            let mut k: usize = 0;
            while k < quests[q].participants.len()
                invariant
                    q < quests@.len(),
                    names_unique(players@),
                    k <= quests@[q as int].participants@.len(),
                    forall|a: int, c: int|
                        0 <= a < q && 0 <= c < quests@[a].participants@.len() ==> player_names(
                            players@,
                        ).contains(#[trigger] quests@[a].participants@[c]@),
                    forall|c: int|
                        0 <= c < k ==> player_names(players@).contains(
                            #[trigger] quests@[q as int].participants@[c]@,
                        ),
                decreases quests@[q as int].participants@.len() - k,
            {
                if !has_player(&players, &quests[q].participants[k]) {
                    assert(!participants_known(players@, quests@));
                    return Err(DecodingError::UnknownParticipant);
                }
                k = k + 1;
            }
            q = q + 1;
        }
        Ok(GameInfo { players, quests, result })
    }

    /// The players on the winning side.
    pub fn winners(&self) -> (r: Vec<String>)
        ensures
            texts(r@) == names_with(self.players@, self.result.winner),
    {
        self.players_with_alignment(self.result.winner)
    }

    /// Every player of the game.
    pub fn all_players(&self) -> (r: Vec<String>)
        ensures
            texts(r@) == player_names(self.players@),
    {
        let mut out: Vec<String> = Vec::new();
        let mut i: usize = 0;
        while i < self.players.len()
            invariant
                i <= self.players@.len(),
                out@.len() == i,
                forall|k: int| 0 <= k < i ==> #[trigger] out@[k]@ == self.players@[k].0@,
            decreases self.players@.len() - i,
        {
            let name = self.players[i].0.clone();
            out.push(name);
            i = i + 1;
        }
        assert(texts(out@) =~= player_names(self.players@));
        out
    }

    /// The players whose role belongs to faction `alignment`, whoever won.
    pub fn players_with_alignment(&self, alignment: Alignment) -> (r: Vec<String>)
        ensures
            texts(r@) == names_with(self.players@, alignment),
    {
        let mut out: Vec<String> = Vec::new();
        let mut i: usize = 0;
        while i < self.players.len()
            invariant
                i <= self.players@.len(),
                texts(out@) =~= names_with(self.players@.take(i as int), alignment),
            decreases self.players@.len() - i,
        {
            let ghost before = out@;
            if self.players[i].1.alignment() == alignment {
                out.push(self.players[i].0.clone());
            }
            assert(self.players@.take(i + 1).drop_last() =~= self.players@.take(i as int));
            i = i + 1;
            assert(texts(out@) =~= names_with(self.players@.take(i as int), alignment));
        }
        assert(self.players@.take(i as int) =~= self.players@);
        out
    }
}

/// Everyone of a faction is a player of the game.
pub proof fn lemma_names_with_are_players(ps: Seq<(String, Role)>, a: Alignment)
    ensures
        names_with(ps, a).to_set().subset_of(player_names(ps).to_set()),
    decreases ps.len(),
{
    if ps.len() > 0 {
        let init = ps.drop_last();
        lemma_names_with_are_players(init, a);
        assert forall|x: Seq<char>| names_with(ps, a).to_set().contains(x) implies player_names(
            ps,
        ).to_set().contains(x) by {
            let k = choose|k: int| 0 <= k < names_with(ps, a).len() && names_with(ps, a)[k] == x;
            if k < names_with(init, a).len() {
                assert(names_with(init, a).to_set().contains(x));
                let j = choose|j: int| 0 <= j < player_names(init).len() && player_names(init)[j] == x;
                assert(player_names(ps)[j] == x);
            } else {
                assert(player_names(ps)[ps.len() - 1] == x);
            }
        }
    }
}

/// Every winner of a game is one of its players.
pub proof fn lemma_winners_are_players(g: &GameInfo)
    ensures
        names_with(g.players@, g.result.winner).to_set().subset_of(
            player_names(g.players@).to_set(),
        ),
{
    lemma_names_with_are_players(g.players@, g.result.winner);
}

/// A game without players has no winners and no players.
pub proof fn lemma_empty_game(g: &GameInfo)
    requires
        g.players@.len() == 0,
    ensures
        names_with(g.players@, g.result.winner).to_set() == Set::<Seq<char>>::empty(),
        player_names(g.players@).to_set() == Set::<Seq<char>>::empty(),
{
    assert(names_with(g.players@, g.result.winner).to_set() =~= Set::<Seq<char>>::empty());
    assert(player_names(g.players@).to_set() =~= Set::<Seq<char>>::empty());
}

/// How many of the quests failed.
pub open spec fn count_fails(qs: Seq<QuestStatus>) -> nat
    decreases qs.len(),
{
    if qs.len() == 0 {
        0
    } else {
        count_fails(qs.drop_last()) + if qs.last() == QuestStatus::Fail { 1nat } else { 0nat }
    }
}

/// How a stored game was won, read back from its winner and quest outcomes:
/// evil won by assassination unless three quests failed, and good always by quests.
pub fn victory_type_from(winner: Alignment, statuses: &Vec<QuestStatus>) -> (r: VictoryType)
    ensures
        r == if winner == Alignment::Evil && count_fails(statuses@) < 3 {
            VictoryType::Assassination
        } else {
            VictoryType::Quest
        },
{
    let mut fails: usize = 0;
    let mut i: usize = 0;
    while i < statuses.len()
        invariant
            i <= statuses@.len(),
            fails == count_fails(statuses@.take(i as int)),
            fails <= i,
        decreases statuses@.len() - i,
    {
        assert(statuses@.take(i + 1).drop_last() =~= statuses@.take(i as int));
        if statuses[i] == QuestStatus::Fail {
            fails = fails + 1;
        }
        i = i + 1;
    }
    assert(statuses@.take(i as int) =~= statuses@);
    if winner == Alignment::Evil && fails < 3 {
        VictoryType::Assassination
    } else {
        VictoryType::Quest
    }
}

} // verus!
