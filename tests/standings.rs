use avalon_tracker::game::{victory_type_from, EndResult, GameInfo, Quest};
use avalon_tracker::standings::{ranks_before, standings, standings_by_alignment, Record};
use avalon_tracker::types::{Alignment, DecodingError, QuestStatus, Role, VictoryType};
use std::collections::HashSet;

fn quest(status: QuestStatus, fails: i32, names: &[&str]) -> Quest {
    Quest {
        status,
        fails: Some(fails),
        participants: names.iter().map(|n| n.to_string()).collect(),
    }
}

fn quests() -> Vec<Quest> {
    vec![
        quest(QuestStatus::Success, 0, &["player1", "player2"]),
        quest(QuestStatus::Fail, 1, &["player1", "player2", "player4"]),
        quest(QuestStatus::Fail, 2, &["player2", "player4", "player5"]),
        quest(QuestStatus::Success, 0, &["player1", "player3", "player4"]),
        quest(QuestStatus::Success, 0, &["player1", "player3", "player4"]),
    ]
}

fn game(players: &[(&str, Role)], winner: Alignment, victory_type: VictoryType) -> GameInfo {
    GameInfo {
        players: players.iter().map(|(n, r)| (n.to_string(), *r)).collect(),
        quests: quests(),
        result: EndResult { winner, victory_type },
    }
}

fn test_games() -> Vec<GameInfo> {
    vec![
        game(
            &[
                ("player1", Role::Merlin),
                ("player2", Role::Morgana),
                ("player3", Role::Percival),
                ("player4", Role::Servant),
                ("player5", Role::Assassin),
            ],
            Alignment::Evil,
            VictoryType::Assassination,
        ),
        game(
            &[
                ("player1", Role::Merlin),
                ("player2", Role::Morgana),
                ("player3", Role::Percival),
                ("player4", Role::Servant),
                ("player5", Role::ReverseOberon),
                ("player6", Role::Assassin),
            ],
            Alignment::Good,
            VictoryType::Quest,
        ),
    ]
}

#[test]
fn test_read_from_test_file() {
    let games = test_games();
    let d = games.get(0).unwrap();
    assert_eq!(
        d.winners().into_iter().collect::<HashSet<String>>(),
        HashSet::from_iter(vec![String::from("player2"), String::from("player5")])
    );
    let standing = standings(&games);
    assert_eq!(standing.get("player1").unwrap(), Record { wins: 1, losses: 1 });
    assert_eq!(standing.get("player5").unwrap(), Record { wins: 2, losses: 0 });
}

#[test]
fn alignment_table() {
    for r in [Role::Assassin, Role::Morgana, Role::Minion, Role::Mordred, Role::Oberon] {
        assert_eq!(r.alignment(), Alignment::Evil);
    }
    for r in [Role::Merlin, Role::Percival, Role::ReverseOberon, Role::Servant] {
        assert_eq!(r.alignment(), Alignment::Good);
    }
}

#[test]
fn decoding_names() {
    assert_eq!(Role::from_name("reverseoberon"), Ok(Role::ReverseOberon));
    assert_eq!(Role::from_name("servant"), Ok(Role::Servant));
    assert_eq!(Role::from_name("Servant"), Err(DecodingError::UnknownRole));
    assert_eq!(Role::from_name(""), Err(DecodingError::UnknownRole));
    assert_eq!(QuestStatus::from_name("fail"), Ok(QuestStatus::Fail));
    assert_eq!(QuestStatus::from_name("failed"), Err(DecodingError::UnknownStatus));
    assert_eq!(Alignment::from_name("good"), Ok(Alignment::Good));
    assert_eq!(Alignment::from_name("neutral"), Err(DecodingError::UnknownAlignment));
    assert_eq!(VictoryType::from_name("assassination"), Ok(VictoryType::Assassination));
    assert_eq!(VictoryType::from_name("quests"), Err(DecodingError::UnknownVictoryType));
}

#[test]
fn winners_are_the_winning_faction() {
    let games = test_games();
    let g = &games[1];
    let winners: HashSet<String> = g.winners().into_iter().collect();
    let good: HashSet<String> = g.players_with_alignment(Alignment::Good).into_iter().collect();
    let all: HashSet<String> = g.all_players().into_iter().collect();
    assert_eq!(winners, good);
    assert!(winners.is_subset(&all));
    assert_eq!(all.len(), 6);
    let evil: Vec<String> = g.players_with_alignment(Alignment::Evil);
    assert_eq!(evil, vec!["player2".to_string(), "player6".to_string()]);
}

#[test]
fn empty_game_has_no_players() {
    let g = game(&[], Alignment::Good, VictoryType::Quest);
    assert!(g.winners().is_empty());
    assert!(g.all_players().is_empty());
    assert!(g.players_with_alignment(Alignment::Evil).is_empty());
    let s = standings(&[g]);
    assert_eq!(s.len(), 0);
}

#[test]
fn standings_counts_every_game_played() {
    let games = test_games();
    let s = standings(&games);
    assert_eq!(s.len(), 6);
    assert_eq!(s.get("player2").unwrap(), Record { wins: 1, losses: 1 });
    assert_eq!(s.get("player6").unwrap(), Record { wins: 0, losses: 1 });
    assert_eq!(s.get("player7"), None);
    for k in 0..s.len() {
        let (name, rec) = s.entry(k);
        let played = games
            .iter()
            .filter(|g| g.players.iter().any(|(n, _)| *n == name))
            .count() as u32;
        assert_eq!(rec.wins + rec.losses, played);
    }
}

#[test]
fn standings_twice_agree() {
    let games = test_games();
    let a = standings(&games);
    let b = standings(&games);
    assert_eq!(a.len(), b.len());
    for k in 0..a.len() {
        let (name, rec) = a.entry(k);
        assert_eq!(b.get(&name), Some(rec));
    }
}

#[test]
fn standings_split_by_faction() {
    let games = test_games();
    let s = standings_by_alignment(&games);
    let good = s.get(Alignment::Good);
    let evil = s.get(Alignment::Evil);
    assert_eq!(good.get("player1").unwrap(), Record { wins: 1, losses: 1 });
    assert_eq!(good.get("player5").unwrap(), Record { wins: 1, losses: 0 });
    assert_eq!(evil.get("player5").unwrap(), Record { wins: 1, losses: 0 });
    assert_eq!(evil.get("player2").unwrap(), Record { wins: 1, losses: 1 });
    assert_eq!(evil.get("player1"), None);
    assert_eq!(good.len(), 4);
    assert_eq!(evil.len(), 3);
}

#[test]
fn no_games_no_standings() {
    let s = standings(&[]);
    assert_eq!(s.len(), 0);
    let by = standings_by_alignment(&[]);
    assert_eq!(by.good.len(), 0);
    assert_eq!(by.evil.len(), 0);
}

#[test]
fn victory_type_from_stored_quests() {
    let two = vec![QuestStatus::Fail, QuestStatus::Success, QuestStatus::Fail];
    let three = vec![QuestStatus::Fail, QuestStatus::Fail, QuestStatus::Success, QuestStatus::Fail];
    assert_eq!(victory_type_from(Alignment::Evil, &two), VictoryType::Assassination);
    assert_eq!(victory_type_from(Alignment::Evil, &three), VictoryType::Quest);
    assert_eq!(victory_type_from(Alignment::Good, &two), VictoryType::Quest);
    assert_eq!(victory_type_from(Alignment::Evil, &vec![]), VictoryType::Assassination);
}

#[test]
fn ranking_order() {
    let r = |wins, losses| Record { wins, losses };
    // more wins first, whatever the percentage
    assert!(ranks_before("b", r(3, 5), "a", r(2, 0)));
    assert!(!ranks_before("a", r(2, 0), "b", r(3, 5)));
    // equal wins: higher percentage first
    assert!(ranks_before("z", r(2, 1), "a", r(2, 2)));
    assert!(!ranks_before("a", r(2, 2), "z", r(2, 1)));
    // equal wins and percentage: by name
    assert!(ranks_before("alice", r(1, 1), "bob", r(1, 1)));
    assert!(!ranks_before("bob", r(1, 1), "alice", r(1, 1)));
    assert!(ranks_before("player1", r(2, 2), "player10", r(2, 2)));
    assert!(!ranks_before("same", r(1, 1), "same", r(1, 1)));
    // largest counts do not overflow
    assert!(ranks_before("a", r(u32::MAX, 0), "b", r(u32::MAX, u32::MAX)));
}

#[test]
fn new_game_checks_names() {
    let players = || vec![("a".to_string(), Role::Merlin), ("b".to_string(), Role::Assassin)];
    let result = EndResult { winner: Alignment::Good, victory_type: VictoryType::Quest };
    let ok = GameInfo::new(players(), vec![quest(QuestStatus::Success, 0, &["a", "b"])], result);
    let g = ok.unwrap();
    assert_eq!(g.players.len(), 2);
    assert_eq!(g.quests.len(), 1);
    assert_eq!(g.result, result);
    let dup = vec![("a".to_string(), Role::Merlin), ("a".to_string(), Role::Servant)];
    assert_eq!(GameInfo::new(dup, vec![], result).err(), Some(DecodingError::DuplicatePlayer));
    let stranger = vec![quest(QuestStatus::Fail, 1, &["a", "c"])];
    assert_eq!(
        GameInfo::new(players(), stranger, result).err(),
        Some(DecodingError::UnknownParticipant)
    );
    assert!(GameInfo::new(vec![], vec![], result).is_ok());
}

#[test]
fn ranked_rows_in_display_order() {
    let mut games = test_games();
    games.push(game(
        &[("player1", Role::Merlin), ("player4", Role::Servant), ("player2", Role::Minion)],
        Alignment::Good,
        VictoryType::Quest,
    ));
    let s = standings(&games);
    let names: Vec<String> = s.ranked().into_iter().map(|(n, _)| n).collect();
    // player1 and player4: 2-1; player3: 1-1; player5: 2-0; player2: 1-2; player6: 0-1
    assert_eq!(names, vec!["player5", "player1", "player4", "player3", "player2", "player6"]);
    let recs: Vec<Record> = s.ranked().into_iter().map(|(_, r)| r).collect();
    assert_eq!(recs[0], Record { wins: 2, losses: 0 });
    assert_eq!(recs[5], Record { wins: 0, losses: 1 });
    assert!(standings(&[]).ranked().is_empty());
}
