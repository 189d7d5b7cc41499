use vstd::prelude::*;
use vstd::seq_lib::{to_multiset_build, to_multiset_insert};
use crate::game::{names_unique, names_with, player_names, texts, GameInfo};
use crate::text::{same_text, seq_less, str_less};
use crate::types::{alignment_of, Alignment};

verus! {

/// Wins and losses of one player.
#[derive(Clone, Copy, Debug, PartialEq, Eq, Structural)]
pub struct Record {
    pub wins: u32,
    pub losses: u32,
}

/// One player's part in one game: the name, and whether that side won.
pub type Outcome = (Seq<char>, bool);

/// The outcome of every player of a game, in table order.
pub open spec fn game_outcomes(g: GameInfo) -> Seq<Outcome> {
    g.players@.map_values(|p: (String, crate::types::Role)| (p.0@, alignment_of(p.1) == g.result.winner))
}

/// The outcomes of every player of every game, game after game.
pub open spec fn outcomes(gs: Seq<GameInfo>) -> Seq<Outcome>
    decreases gs.len(),
{
    if gs.len() == 0 {
        Seq::empty()
    } else {
        outcomes(gs.drop_last()) + game_outcomes(gs.last())
    }
}

/// The outcomes of the players who held faction `a`, game after game.
pub open spec fn aligned_outcomes(gs: Seq<GameInfo>, a: Alignment) -> Seq<Outcome>
    decreases gs.len(),
{
    if gs.len() == 0 {
        Seq::empty()
    } else {
        aligned_outcomes(gs.drop_last(), a) + names_with(gs.last().players@, a).map_values(
            |n: Seq<char>| (n, a == gs.last().result.winner),
        )
    }
}

/// How many of the outcomes are wins of `n`.
pub open spec fn wins_of(os: Seq<Outcome>, n: Seq<char>) -> nat
    decreases os.len(),
{
    if os.len() == 0 {
        0
    } else {
        wins_of(os.drop_last(), n) + if os.last() == (n, true) { 1nat } else { 0nat }
    }
}

/// How many of the outcomes are losses of `n`.
pub open spec fn losses_of(os: Seq<Outcome>, n: Seq<char>) -> nat
    decreases os.len(),
{
    if os.len() == 0 {
        0
    } else {
        losses_of(os.drop_last(), n) + if os.last() == (n, false) { 1nat } else { 0nat }
    }
}

/// Whether `n` took part in any of the outcomes.
pub open spec fn appears(os: Seq<Outcome>, n: Seq<char>) -> bool {
    exists|i: int| 0 <= i < os.len() && os[i].0 == n
}

/// Whether a table of (name, record) rows is the tally of `os`: one row per
/// name that appears, none for any other, each with that name's wins and losses.
pub open spec fn tallies(rows: Seq<(Seq<char>, Record)>, os: Seq<Outcome>) -> bool {
    &&& forall|i: int, j: int|
        0 <= i < rows.len() && 0 <= j < rows.len() && i != j ==> rows[i].0 != rows[j].0
    &&& forall|k: int|
        #![trigger rows[k]]
        0 <= k < rows.len() ==> {
            &&& rows[k].1.wins == wins_of(os, rows[k].0)
            &&& rows[k].1.losses == losses_of(os, rows[k].0)
            &&& appears(os, rows[k].0)
        }
    &&& forall|n: Seq<char>|
        #[trigger] appears(os, n) ==> exists|k: int| 0 <= k < rows.len() && rows[k].0 == n
}

proof fn lemma_counts_bounded(os: Seq<Outcome>, n: Seq<char>)
    ensures
        wins_of(os, n) + losses_of(os, n) <= os.len(),
        !appears(os, n) ==> wins_of(os, n) == 0 && losses_of(os, n) == 0,
    decreases os.len(),
{
    if os.len() > 0 {
        lemma_counts_bounded(os.drop_last(), n);
        if !appears(os, n) {
            assert forall|i: int| 0 <= i < os.drop_last().len() implies os.drop_last()[i].0 != n by {
                assert(os[i].0 != n);
            }
            assert(os[os.len() - 1].0 != n);
        }
    }
}

proof fn lemma_push(os: Seq<Outcome>, x: Outcome, n: Seq<char>)
    ensures
        wins_of(os.push(x), n) == wins_of(os, n) + if x == (n, true) { 1nat } else { 0nat },
        losses_of(os.push(x), n) == losses_of(os, n) + if x == (n, false) { 1nat } else { 0nat },
        appears(os.push(x), n) <==> appears(os, n) || x.0 == n,
{
    assert(os.push(x).drop_last() =~= os);
    if appears(os, n) {
        let i = choose|i: int| 0 <= i < os.len() && os[i].0 == n;
        assert(os.push(x)[i].0 == n);
    }
    if x.0 == n {
        assert(os.push(x)[os.len() as int].0 == n);
    }
    if appears(os.push(x), n) && x.0 != n {
        let i = choose|i: int| 0 <= i < os.push(x).len() && os.push(x)[i].0 == n;
        assert(os[i].0 == n);
    }
}

proof fn lemma_tally_existing(
    rows: Seq<(Seq<char>, Record)>,
    os: Seq<Outcome>,
    k: int,
    x: Outcome,
    rec: Record,
)
    requires
        tallies(rows, os),
        0 <= k < rows.len(),
        rows[k].0 == x.0,
        rec.wins == wins_of(os, x.0) + if x.1 { 1nat } else { 0nat },
        rec.losses == losses_of(os, x.0) + if x.1 { 0nat } else { 1nat },
    ensures
        tallies(rows.update(k, (x.0, rec)), os.push(x)),
{
    let r2 = rows.update(k, (x.0, rec));
    let o2 = os.push(x);
    assert forall|j: int| #![trigger r2[j]] 0 <= j < r2.len() implies {
        &&& r2[j].1.wins == wins_of(o2, r2[j].0)
        &&& r2[j].1.losses == losses_of(o2, r2[j].0)
        &&& appears(o2, r2[j].0)
    } by {
        lemma_push(os, x, r2[j].0);
        assert(rows[j].1.wins == wins_of(os, rows[j].0));
    }
    assert forall|n: Seq<char>| #[trigger] appears(o2, n) implies exists|j: int|
        0 <= j < r2.len() && r2[j].0 == n by {
        lemma_push(os, x, n);
        if n == x.0 {
            assert(r2[k].0 == n);
        } else {
            assert(appears(os, n));
            let j = choose|j: int| 0 <= j < rows.len() && rows[j].0 == n;
            assert(r2[j].0 == n);
        }
    }
}

proof fn lemma_tally_new(rows: Seq<(Seq<char>, Record)>, os: Seq<Outcome>, x: Outcome, rec: Record)
    requires
        tallies(rows, os),
        forall|j: int| 0 <= j < rows.len() ==> rows[j].0 != x.0,
        rec.wins == if x.1 { 1nat } else { 0nat },
        rec.losses == if x.1 { 0nat } else { 1nat },
    ensures
        tallies(rows.push((x.0, rec)), os.push(x)),
{
    let r2 = rows.push((x.0, rec));
    let o2 = os.push(x);
    lemma_counts_bounded(os, x.0);
    if appears(os, x.0) {
        let j = choose|j: int| 0 <= j < rows.len() && rows[j].0 == x.0;
        assert(false);
    }
    assert forall|j: int| #![trigger r2[j]] 0 <= j < r2.len() implies {
        &&& r2[j].1.wins == wins_of(o2, r2[j].0)
        &&& r2[j].1.losses == losses_of(o2, r2[j].0)
        &&& appears(o2, r2[j].0)
    } by {
        lemma_push(os, x, r2[j].0);
        if j < rows.len() {
            assert(rows[j].1.wins == wins_of(os, rows[j].0));
        }
    }
    assert forall|n: Seq<char>| #[trigger] appears(o2, n) implies exists|j: int|
        0 <= j < r2.len() && r2[j].0 == n by {
        lemma_push(os, x, n);
        if n == x.0 {
            assert(r2[rows.len() as int].0 == n);
        } else {
            assert(appears(os, n));
            let j = choose|j: int| 0 <= j < rows.len() && rows[j].0 == n;
            assert(r2[j].0 == n);
        }
    }
}

/// Win/loss records keyed by player name.
pub struct Standings {
    names: Vec<String>,
    records: Vec<Record>,
}

impl Standings {
    /// The rows of the table: each name with its record.
    pub closed spec fn rows(&self) -> Seq<(Seq<char>, Record)> {
        Seq::new(self.names@.len(), |k: int| (self.names@[k]@, self.records@[k]))
    }

    pub closed spec fn wf(&self) -> bool {
        self.names@.len() == self.records@.len()
    }

    /// A table with no rows.
    pub fn new() -> (r: Standings)
        ensures
            r.wf(),
            r.rows().len() == 0,
    {
        Standings { names: Vec::new(), records: Vec::new() }
    }

    /// Number of players in the table.
    pub fn len(&self) -> (r: usize)
        requires
            self.wf(),
        ensures
            r == self.rows().len(),
    {
        self.names.len()
    }

    /// The record of the player named `name`, if the table has one.
    pub fn get(&self, name: &str) -> (r: Option<Record>)
        requires
            self.wf(),
        ensures
            r is None <==> forall|k: int| 0 <= k < self.rows().len() ==> self.rows()[k].0 != name@,
            r matches Some(rec) ==> exists|k: int|
                0 <= k < self.rows().len() && self.rows()[k] == (name@, rec),
    {
        let target = name.to_owned();
        assert(target@ == name@);
        let mut k: usize = 0;
        while k < self.names.len()
            invariant
                self.wf(),
                k <= self.names@.len(),
                target@ == name@,
                forall|j: int| 0 <= j < k ==> self.rows()[j].0 != name@,
            decreases self.names@.len() - k,
        {
            assert(self.rows()[k as int] == (self.names@[k as int]@, self.records@[k as int]));
            if same_text(&self.names[k], &target) {
                assert(self.names@[k as int]@ == name@);
                assert(self.rows()[k as int].0 == name@);
                let rec = self.records[k];
                assert(rec == self.records@[k as int]);
                return Some(rec);
            }
            k = k + 1;
        }
        None
    }

    /// The entry of row `k`.
    pub fn entry(&self, k: usize) -> (r: (String, Record))
        requires
            self.wf(),
            k < self.rows().len(),
        ensures
            (r.0@, r.1) == self.rows()[k as int],
    {
        (self.names[k].clone(), self.records[k])
    }

    /// Counts one more game of `name`: a win if `won`, else a loss.
    fn record(&mut self, name: &String, won: bool, Ghost(os): Ghost<Seq<Outcome>>)
        requires
            old(self).wf(),
            tallies(old(self).rows(), os),
            os.len() < u32::MAX,
        ensures
            final(self).wf(),
            tallies(final(self).rows(), os.push((name@, won))),
    {
        let ghost x = (name@, won);
        let ghost rows0 = self.rows();
        proof {
            lemma_counts_bounded(os, name@);
        }
        let mut k: usize = 0;
        while k < self.names.len()
            invariant
                self.wf(),
                self.rows() == rows0,
                tallies(rows0, os),
                x == (name@, won),
                os.len() < u32::MAX,
                wins_of(os, name@) + losses_of(os, name@) <= os.len(),
                !appears(os, name@) ==> wins_of(os, name@) == 0 && losses_of(os, name@) == 0,
                k <= self.names@.len(),
                forall|j: int| 0 <= j < k ==> rows0[j].0 != name@,
            decreases self.names@.len() - k,
        {
            assert(rows0[k as int] == (self.names@[k as int]@, self.records@[k as int]));
            if same_text(&self.names[k], name) {
                let old_rec = self.records[k];
                assert(old_rec == self.records@[k as int]);
                assert(rows0[k as int].0 == name@);
                assert(rows0[k as int].1.wins == wins_of(os, rows0[k as int].0));
                assert(rows0[k as int].1.losses == losses_of(os, rows0[k as int].0));
                let rec = if won {
                    Record { wins: old_rec.wins + 1, losses: old_rec.losses }
                } else {
                    Record { wins: old_rec.wins, losses: old_rec.losses + 1 }
                };
                self.records.remove(k);
                self.records.insert(k, rec);
                assert(self.rows() =~= rows0.update(k as int, (name@, rec)));
                proof {
                    lemma_tally_existing(rows0, os, k as int, x, rec);
                }
                return;
            }
            k = k + 1;
        }
        let rec = if won {
            Record { wins: 1, losses: 0 }
        } else {
            Record { wins: 0, losses: 1 }
        };
        self.names.push(name.clone());
        self.records.push(rec);
        assert(self.rows() =~= rows0.push((name@, rec)));
        proof {
            lemma_tally_new(rows0, os, x, rec);
        }
    }
}

proof fn lemma_outcomes_prefix(gs: Seq<GameInfo>, i: int)
    requires
        0 <= i < gs.len(),
    ensures
        outcomes(gs.take(i)) + game_outcomes(gs[i]) == outcomes(gs.take(i + 1)),
        outcomes(gs.take(i + 1)).len() <= outcomes(gs).len(),
    decreases gs.len(),
{
    assert(gs.take(i + 1).drop_last() =~= gs.take(i));
    if i + 1 == gs.len() {
        assert(gs.take(i + 1) =~= gs);
    } else {
        lemma_outcomes_prefix(gs.drop_last(), i);
        assert(gs.drop_last().take(i + 1) =~= gs.take(i + 1));
        assert(gs.drop_last().take(i) =~= gs.take(i));
    }
}

/// Wins and losses of every player over all the games: a player counts a win
/// for each game in which their side won and a loss for each other game they played.
pub fn standings(info: &[GameInfo]) -> (r: Standings)
    requires
        outcomes(info@).len() < u32::MAX,
    ensures
        r.wf(),
        tallies(r.rows(), outcomes(info@)),
{
    let mut table = Standings::new();
    let mut i: usize = 0;
    assert(outcomes(info@.take(0)) =~= Seq::<Outcome>::empty());
    while i < info.len()
        invariant
            i <= info@.len(),
            outcomes(info@).len() < u32::MAX,
            table.wf(),
            tallies(table.rows(), outcomes(info@.take(i as int))),
        decreases info@.len() - i,
    {
        let game = &info[i];
        let ghost before = outcomes(info@.take(i as int));
        proof {
            lemma_outcomes_prefix(info@, i as int);
        }
        let mut j: usize = 0;
        assert(before + game_outcomes(*game).take(0) =~= before);
        while j < game.players.len()
            invariant
                j <= game.players@.len(),
                game == info@[i as int],
                before + game_outcomes(*game) == outcomes(info@.take(i + 1)),
                outcomes(info@.take(i + 1)).len() <= outcomes(info@).len(),
                outcomes(info@).len() < u32::MAX,
                table.wf(),
                tallies(table.rows(), before + game_outcomes(*game).take(j as int)),
            decreases game.players@.len() - j,
        {
            let won = game.players[j].1.alignment() == game.result.winner;
            let ghost os = before + game_outcomes(*game).take(j as int);
            table.record(&game.players[j].0, won, Ghost(os));
            assert(os.push((game.players@[j as int].0@, won)) =~= before + game_outcomes(
                *game,
            ).take(j + 1));
            j = j + 1;
        }
        assert(game_outcomes(*game).take(j as int) =~= game_outcomes(*game));
        i = i + 1;
    }
    assert(info@.take(i as int) =~= info@);
    table
}

/// Win/loss records split by the faction each player held.
pub struct AlignmentStandings {
    pub good: Standings,
    pub evil: Standings,
}

impl AlignmentStandings {
    /// The records of the games in which players held faction `a`.
    pub fn get(&self, a: Alignment) -> (r: &Standings)
        ensures
            r == if a == Alignment::Good { &self.good } else { &self.evil },
    {
        match a {
            Alignment::Good => &self.good,
            Alignment::Evil => &self.evil,
        }
    }
}

/// The outcomes of the named players, all with the same result.
pub open spec fn same_outcome(names: Seq<Seq<char>>, won: bool) -> Seq<Outcome> {
    names.map_values(|n: Seq<char>| (n, won))
}

fn tally_names(table: &mut Standings, names: &Vec<String>, won: bool, Ghost(os): Ghost<Seq<Outcome>>)
    requires
        old(table).wf(),
        tallies(old(table).rows(), os),
        os.len() + names@.len() <= u32::MAX,
    ensures
        final(table).wf(),
        tallies(final(table).rows(), os + same_outcome(texts(names@), won)),
{
    let mut j: usize = 0;
    assert(os + same_outcome(texts(names@), won).take(0) =~= os);
    while j < names.len()
        invariant
            j <= names@.len(),
            os.len() + names@.len() <= u32::MAX,
            table.wf(),
            tallies(table.rows(), os + same_outcome(texts(names@), won).take(j as int)),
        decreases names@.len() - j,
    {
        let ghost cur = os + same_outcome(texts(names@), won).take(j as int);
        table.record(&names[j], won, Ghost(cur));
        assert(cur.push((names@[j as int]@, won)) =~= os + same_outcome(texts(names@), won).take(
            j + 1,
        ));
        j = j + 1;
    }
    assert(same_outcome(texts(names@), won).take(j as int) =~= same_outcome(texts(names@), won));
}

proof fn lemma_aligned_prefix(gs: Seq<GameInfo>, i: int, a: Alignment)
    requires
        0 <= i < gs.len(),
    ensures
        aligned_outcomes(gs.take(i), a) + same_outcome(names_with(gs[i].players@, a), a == gs[i].result.winner)
            == aligned_outcomes(gs.take(i + 1), a),
        aligned_outcomes(gs.take(i + 1), a).len() <= aligned_outcomes(gs, a).len(),
    decreases gs.len(),
{
    assert(gs.take(i + 1).drop_last() =~= gs.take(i));
    if i + 1 == gs.len() {
        assert(gs.take(i + 1) =~= gs);
    } else {
        lemma_aligned_prefix(gs.drop_last(), i, a);
        assert(gs.drop_last().take(i + 1) =~= gs.take(i + 1));
        assert(gs.drop_last().take(i) =~= gs.take(i));
    }
}

/// Wins and losses of every player, counted separately for the games in which
/// they held each faction; a win is a game in which that faction won.
pub fn standings_by_alignment(info: &[GameInfo]) -> (r: AlignmentStandings)
    requires
        aligned_outcomes(info@, Alignment::Good).len() < u32::MAX,
        aligned_outcomes(info@, Alignment::Evil).len() < u32::MAX,
    ensures
        r.good.wf(),
        r.evil.wf(),
        tallies(r.good.rows(), aligned_outcomes(info@, Alignment::Good)),
        tallies(r.evil.rows(), aligned_outcomes(info@, Alignment::Evil)),
{
    let mut good = Standings::new();
    let mut evil = Standings::new();
    let mut i: usize = 0;
    assert(aligned_outcomes(info@.take(0), Alignment::Good) =~= Seq::<Outcome>::empty());
    assert(aligned_outcomes(info@.take(0), Alignment::Evil) =~= Seq::<Outcome>::empty());
    while i < info.len()
        invariant
            i <= info@.len(),
            aligned_outcomes(info@, Alignment::Good).len() < u32::MAX,
            aligned_outcomes(info@, Alignment::Evil).len() < u32::MAX,
            good.wf(),
            evil.wf(),
            tallies(good.rows(), aligned_outcomes(info@.take(i as int), Alignment::Good)),
            tallies(evil.rows(), aligned_outcomes(info@.take(i as int), Alignment::Evil)),
        decreases info@.len() - i,
    {
        let game = &info[i];
        proof {
            lemma_aligned_prefix(info@, i as int, Alignment::Good);
            lemma_aligned_prefix(info@, i as int, Alignment::Evil);
        }
        let good_players = game.players_with_alignment(Alignment::Good);
        tally_names(
            &mut good,
            &good_players,
            game.result.winner == Alignment::Good,
            Ghost(aligned_outcomes(info@.take(i as int), Alignment::Good)),
        );
        let evil_players = game.players_with_alignment(Alignment::Evil);
        tally_names(
            &mut evil,
            &evil_players,
            game.result.winner == Alignment::Evil,
            Ghost(aligned_outcomes(info@.take(i as int), Alignment::Evil)),
        );
        i = i + 1;
    }
    assert(info@.take(i as int) =~= info@);
    AlignmentStandings { good, evil }
}

/// Whether the table has a row for `n`.
pub open spec fn has_row(rows: Seq<(Seq<char>, Record)>, n: Seq<char>) -> bool {
    exists|k: int| 0 <= k < rows.len() && rows[k].0 == n
}

/// Two tallies of the same outcomes hold the same players with the same
/// records: computing the standings twice over the same games gives one answer.
pub proof fn lemma_tally_deterministic(
    r1: Seq<(Seq<char>, Record)>,
    r2: Seq<(Seq<char>, Record)>,
    os: Seq<Outcome>,
)
    requires
        tallies(r1, os),
        tallies(r2, os),
    ensures
        forall|n: Seq<char>| #[trigger] has_row(r1, n) <==> has_row(r2, n),
        forall|k1: int, k2: int|
            0 <= k1 < r1.len() && 0 <= k2 < r2.len() && r1[k1].0 == r2[k2].0 ==> r1[k1].1
                == r2[k2].1,
{
    assert forall|n: Seq<char>| #[trigger] has_row(r1, n) implies has_row(r2, n) by {
        let k = choose|k: int| 0 <= k < r1.len() && r1[k].0 == n;
        assert(appears(os, r1[k].0));
    }
    assert forall|n: Seq<char>| #[trigger] has_row(r2, n) implies has_row(r1, n) by {
        let k = choose|k: int| 0 <= k < r2.len() && r2[k].0 == n;
        assert(appears(os, r2[k].0));
    }
    assert forall|k1: int, k2: int|
        0 <= k1 < r1.len() && 0 <= k2 < r2.len() && r1[k1].0 == r2[k2].0 implies r1[k1].1
            == r2[k2].1 by {
        assert(r1[k1].1.wins == wins_of(os, r1[k1].0));
        assert(r2[k2].1.wins == wins_of(os, r2[k2].0));
    }
}

/// Whether record `a` has a strictly higher win percentage than record `b`,
/// compared exactly as wins_a / games_a > wins_b / games_b.
pub open spec fn higher_percentage(a: Record, b: Record) -> bool {
    (a.wins as int) * ((b.wins as int) + (b.losses as int)) > (b.wins as int) * ((a.wins as int)
        + (a.losses as int))
}

/// The display order: more wins first, then the higher win percentage, then
/// the name that comes first alphabetically.
pub open spec fn ranks_before_spec(a_name: Seq<char>, a: Record, b_name: Seq<char>, b: Record) -> bool {
    a.wins > b.wins || (a.wins == b.wins && (higher_percentage(a, b) || (!higher_percentage(b, a)
        && seq_less(a_name, b_name))))
}

fn higher_percentage_exec(a: Record, b: Record) -> (r: bool)
    ensures
        r == higher_percentage(a, b),
{
    let aw = a.wins as u128;
    let bw = b.wins as u128;
    let at = aw + a.losses as u128;
    let bt = bw + b.losses as u128;
    assert(aw * bt <= 0xffff_ffffu128 * 0x1_ffff_fffeu128) by (nonlinear_arith)
        requires
            aw <= 0xffff_ffffu128,
            bt <= 0x1_ffff_fffeu128,
    ;
    assert(bw * at <= 0xffff_ffffu128 * 0x1_ffff_fffeu128) by (nonlinear_arith)
        requires
            bw <= 0xffff_ffffu128,
            at <= 0x1_ffff_fffeu128,
    ;
    aw * bt > bw * at
}

/// Whether the player `a_name` with record `a` is listed above `b_name` with record `b`.
pub fn ranks_before(a_name: &str, a: Record, b_name: &str, b: Record) -> (r: bool)
    ensures
        r == ranks_before_spec(a_name@, a, b_name@, b),
{
    if a.wins != b.wins {
        a.wins > b.wins
    } else if higher_percentage_exec(a, b) {
        true
    } else if higher_percentage_exec(b, a) {
        false
    } else {
        str_less(a_name, b_name)
    }
}

/// Two players with equal wins and equal win percentage are listed by name,
/// the alphabetically first one above.
pub proof fn lemma_ties_broken_by_name(a_name: Seq<char>, a: Record, b_name: Seq<char>, b: Record)
    requires
        a.wins == b.wins,
        (a.wins as int) * ((b.wins as int) + (b.losses as int)) == (b.wins as int) * ((
        a.wins as int) + (a.losses as int)),
    ensures
        ranks_before_spec(a_name, a, b_name, b) == seq_less(a_name, b_name),
        ranks_before_spec(b_name, b, a_name, a) == seq_less(b_name, a_name),
{
}

/// How many of the games have a player named `n`.
pub open spec fn games_with(gs: Seq<GameInfo>, n: Seq<char>) -> nat
    decreases gs.len(),
{
    if gs.len() == 0 {
        0
    } else {
        games_with(gs.drop_last(), n) + if player_names(gs.last().players@).contains(n) {
            1nat
        } else {
            0nat
        }
    }
}

proof fn lemma_count_concat(a: Seq<Outcome>, b: Seq<Outcome>, n: Seq<char>)
    ensures
        wins_of(a + b, n) + losses_of(a + b, n) == wins_of(a, n) + losses_of(a, n) + wins_of(b, n)
            + losses_of(b, n),
    decreases b.len(),
{
    if b.len() == 0 {
        assert(a + b =~= a);
    } else {
        lemma_count_concat(a, b.drop_last(), n);
        assert((a + b).drop_last() =~= a + b.drop_last());
    }
}

proof fn lemma_count_list(ps: Seq<(String, crate::types::Role)>, w: Alignment, n: Seq<char>)
    requires
        forall|i: int, j: int| 0 <= i < ps.len() && 0 <= j < ps.len() && i != j ==> ps[i].0@ != ps[j].0@,
    ensures
        ({
            let os = ps.map_values(|p: (String, crate::types::Role)| (p.0@, alignment_of(p.1) == w));
            wins_of(os, n) + losses_of(os, n) == if player_names(ps).contains(n) { 1nat } else { 0nat }
        }),
    decreases ps.len(),
{
    let os = ps.map_values(|p: (String, crate::types::Role)| (p.0@, alignment_of(p.1) == w));
    if ps.len() == 0 {
        assert(!player_names(ps).contains(n));
    } else {
        let init = ps.drop_last();
        let os0 = init.map_values(|p: (String, crate::types::Role)| (p.0@, alignment_of(p.1) == w));
        assert(os.drop_last() =~= os0);
        lemma_count_list(init, w, n);
        if ps.last().0@ == n {
            assert(player_names(ps)[ps.len() - 1] == n);
            assert(!player_names(init).contains(n)) by {
                if player_names(init).contains(n) {
                    let j = choose|j: int| 0 <= j < player_names(init).len() && player_names(init)[j] == n;
                    assert(ps[j].0@ != ps[ps.len() - 1].0@);
                }
            }
        } else {
            if player_names(ps).contains(n) {
                let j = choose|j: int| 0 <= j < player_names(ps).len() && player_names(ps)[j] == n;
                assert(player_names(init)[j] == n);
            }
            if player_names(init).contains(n) {
                let j = choose|j: int| 0 <= j < player_names(init).len() && player_names(init)[j] == n;
                assert(player_names(ps)[j] == n);
            }
        }
    }
}

/// Where no game has two players of one name, each player's wins and losses
/// add up to the number of games in which that player appears.
pub proof fn lemma_games_played(gs: Seq<GameInfo>, n: Seq<char>)
    requires
        forall|i: int| 0 <= i < gs.len() ==> names_unique(#[trigger] gs[i].players@),
    ensures
        wins_of(outcomes(gs), n) + losses_of(outcomes(gs), n) == games_with(gs, n),
    decreases gs.len(),
{
    if gs.len() > 0 {
        lemma_games_played(gs.drop_last(), n);
        lemma_count_concat(outcomes(gs.drop_last()), game_outcomes(gs.last()), n);
        assert(names_unique(gs[gs.len() - 1].players@));
        lemma_count_list(gs.last().players@, gs.last().result.winner, n);
    }
}

/// Whether row `a` is listed above row `b`.
pub open spec fn row_before(a: (Seq<char>, Record), b: (Seq<char>, Record)) -> bool {
    ranks_before_spec(a.0, a.1, b.0, b.1)
}

/// The text of each listed row.
pub open spec fn row_views(s: Seq<(String, Record)>) -> Seq<(Seq<char>, Record)> {
    s.map_values(|e: (String, Record)| (e.0@, e.1))
}

/// No row is listed below one that ranks after it.
pub open spec fn is_ranked(s: Seq<(Seq<char>, Record)>) -> bool {
    forall|i: int, j: int| 0 <= i < j < s.len() ==> !row_before(#[trigger] s[j], #[trigger] s[i])
}

proof fn lemma_seq_less_asym(a: Seq<char>, b: Seq<char>)
    ensures
        seq_less(a, b) ==> !seq_less(b, a),
    decreases a.len(),
{
    if a.len() > 0 && b.len() > 0 {
        lemma_seq_less_asym(a.drop_first(), b.drop_first());
    }
}

proof fn lemma_seq_less_trans(a: Seq<char>, b: Seq<char>, c: Seq<char>)
    ensures
        seq_less(a, b) && seq_less(b, c) ==> seq_less(a, c),
    decreases a.len(),
{
    if a.len() > 0 && b.len() > 0 && c.len() > 0 {
        lemma_seq_less_trans(a.drop_first(), b.drop_first(), c.drop_first());
    }
}

proof fn lemma_seq_less_order(a: Seq<char>, b: Seq<char>, c: Seq<char>)
    ensures
        seq_less(a, b) ==> !seq_less(b, a),
        seq_less(a, b) && seq_less(b, c) ==> seq_less(a, c),
{
    lemma_seq_less_asym(a, b);
    lemma_seq_less_trans(a, b, c);
}

proof fn lemma_percentage_equal_wins(a: Record, b: Record)
    requires
        a.wins == b.wins,
    ensures
        higher_percentage(a, b) <==> (a.wins > 0 && a.losses < b.losses),
{
    let w = a.wins as int;
    let la = a.losses as int;
    let lb = b.losses as int;
    assert(w * (w + lb) > w * (w + la) <==> (w > 0 && la < lb)) by (nonlinear_arith)
        requires
            w >= 0,
            la >= 0,
            lb >= 0,
    ;
}

proof fn lemma_row_order(a: (Seq<char>, Record), b: (Seq<char>, Record), c: (Seq<char>, Record))
    ensures
        row_before(a, b) ==> !row_before(b, a),
        row_before(a, b) && row_before(b, c) ==> row_before(a, c),
{
    lemma_seq_less_order(a.0, b.0, c.0);
    lemma_seq_less_order(b.0, a.0, c.0);
    if a.1.wins == b.1.wins {
        lemma_percentage_equal_wins(a.1, b.1);
        lemma_percentage_equal_wins(b.1, a.1);
    }
    if b.1.wins == c.1.wins {
        lemma_percentage_equal_wins(b.1, c.1);
        lemma_percentage_equal_wins(c.1, b.1);
    }
    if a.1.wins == c.1.wins {
        lemma_percentage_equal_wins(a.1, c.1);
        lemma_percentage_equal_wins(c.1, a.1);
    }
}

impl Standings {
    /// The rows in display order: more wins first, then the higher win
    /// percentage, then alphabetical by name.
    pub fn ranked(&self) -> (r: Vec<(String, Record)>)
        requires
            self.wf(),
        ensures
            row_views(r@).to_multiset() == self.rows().to_multiset(),
            is_ranked(row_views(r@)),
    {
        let mut out: Vec<(String, Record)> = Vec::new();
        let mut i: usize = 0;
        assert(self.rows().take(0) =~= Seq::<(Seq<char>, Record)>::empty());
        assert(row_views(out@) =~= Seq::<(Seq<char>, Record)>::empty());
        while i < self.names.len()
            invariant
                self.wf(),
                i <= self.names@.len(),
                row_views(out@).to_multiset() == self.rows().take(i as int).to_multiset(),
                is_ranked(row_views(out@)),
            decreases self.names@.len() - i,
        {
            let (name, rec) = self.entry(i);
            let ghost e = (name@, rec);
            let ghost s = row_views(out@);
            let mut p: usize = 0;
            let mut found = false;
            while !found && p < out.len()
                invariant
                    p <= out@.len(),
                    s == row_views(out@),
                    e == (name@, rec),
                    found ==> p < s.len() && row_before(e, s[p as int]),
                    forall|q: int| 0 <= q < p ==> !row_before(e, s[q]),
                decreases out@.len() - p + if found { 0int } else { 1int },
            {
                assert(s[p as int] == (out@[p as int].0@, out@[p as int].1));
                if ranks_before(&name, rec, &out[p].0, out[p].1) {
                    found = true;
                } else {
                    p = p + 1;
                }
            }
            out.insert(p, (name, rec));
            proof {
                assert(row_views(out@) =~= s.insert(p as int, e));
                to_multiset_insert(s, p as int, e);
                assert(self.rows().take(i + 1) =~= self.rows().take(i as int).push(e));
                to_multiset_build(self.rows().take(i as int), e);
                let s2 = row_views(out@);
                assert(forall|k: int| 0 <= k < p ==> s2[k] == s[k]);
                assert(forall|k: int| p < k < s2.len() ==> s2[k] == s[k - 1]);
                assert(s2[p as int] == e);
                assert forall|a: int, b: int| 0 <= a < b < s2.len() implies !row_before(
                    #[trigger] s2[b],
                    #[trigger] s2[a],
                ) by {
                    if a < p && b == p {
                    } else if a == p && b > p {
                        lemma_row_order(s[b - 1], e, s[p as int]);
                        lemma_row_order(e, s[p as int], s[b - 1]);
                        if b - 1 > p {
                            assert(!row_before(s[b - 1], s[p as int]));
                        }
                    } else if a < p && b > p {
                        assert(!row_before(s[b - 1], s[a]));
                    } else if a > p {
                        assert(!row_before(s[b - 1], s[a - 1]));
                    } else {
                        assert(!row_before(s[b], s[a]));
                    }
                }
            }
            i = i + 1;
        }
        assert(self.rows().take(i as int) =~= self.rows());
        out
    }
}

} // verus!
