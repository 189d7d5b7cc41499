use vstd::prelude::*;

verus! {

/// A role dealt to a player at the start of a game.
#[derive(Clone, Copy, Debug, PartialEq, Eq, Structural)]
pub enum Role {
    Assassin,
    Merlin,
    Minion,
    Mordred,
    Morgana,
    Oberon,
    Percival,
    ReverseOberon,
    Servant,
}

/// The faction a role belongs to.
#[derive(Clone, Copy, Debug, PartialEq, Eq, Hash, Structural)]
pub enum Alignment {
    Good,
    Evil,
}

/// How one quest ended.
#[derive(Clone, Copy, Debug, PartialEq, Eq, Structural)]
pub enum QuestStatus {
    Success,
    Fail,
}

/// How the winning side won.
#[derive(Clone, Copy, Debug, PartialEq, Eq, Structural)]
pub enum VictoryType {
    Assassination,
    Quest,
}

/// A raw value that names no known role, status, alignment or victory type.
#[derive(Clone, Copy, Debug, PartialEq, Eq, Structural)]
pub enum DecodingError {
    UnknownRole,
    UnknownStatus,
    UnknownAlignment,
    UnknownVictoryType,
    DuplicatePlayer,
    UnknownParticipant,
}

/// The fixed table from role to faction.
pub open spec fn alignment_of(r: Role) -> Alignment {
    match r {
        Role::Assassin | Role::Morgana | Role::Minion | Role::Mordred | Role::Oberon => Alignment::Evil,
        Role::Merlin | Role::Percival | Role::ReverseOberon | Role::Servant => Alignment::Good,
    }
}

/// The lowercase name under which a role is written.
pub open spec fn role_name(r: Role) -> Seq<char> {
    match r {
        Role::Assassin => "assassin"@,
        Role::Merlin => "merlin"@,
        Role::Minion => "minion"@,
        Role::Mordred => "mordred"@,
        Role::Morgana => "morgana"@,
        Role::Oberon => "oberon"@,
        Role::Percival => "percival"@,
        Role::ReverseOberon => "reverseoberon"@,
        Role::Servant => "servant"@,
    }
}

pub open spec fn status_name(s: QuestStatus) -> Seq<char> {
    match s {
        QuestStatus::Success => "success"@,
        QuestStatus::Fail => "fail"@,
    }
}

pub open spec fn alignment_name(a: Alignment) -> Seq<char> {
    match a {
        Alignment::Good => "good"@,
        Alignment::Evil => "evil"@,
    }
}

pub open spec fn victory_name(v: VictoryType) -> Seq<char> {
    match v {
        VictoryType::Assassination => "assassination"@,
        VictoryType::Quest => "quest"@,
    }
}

impl Role {
    /// The faction of this role.
    pub fn alignment(self) -> (r: Alignment)
        ensures
            r == alignment_of(self),
    {
        match self {
            Role::Assassin | Role::Morgana | Role::Minion | Role::Mordred | Role::Oberon => Alignment::Evil,
            Role::Merlin | Role::Percival | Role::ReverseOberon | Role::Servant => Alignment::Good,
        }
    }

    /// Reads a role from its lowercase name; any other text is refused.
    pub fn from_name(s: &str) -> (r: Result<Role, DecodingError>)
        ensures
            r matches Ok(role) ==> role_name(role) == s@,
            r is Err <==> forall|role: Role| role_name(role) != s@,
            r matches Err(e) ==> e == DecodingError::UnknownRole,
    {
        let s = s.to_owned();
        let r = if s == "assassin".to_owned() {
            Ok(Role::Assassin)
        } else if s == "merlin".to_owned() {
            Ok(Role::Merlin)
        } else if s == "minion".to_owned() {
            Ok(Role::Minion)
        } else if s == "mordred".to_owned() {
            Ok(Role::Mordred)
        } else if s == "morgana".to_owned() {
            Ok(Role::Morgana)
        } else if s == "oberon".to_owned() {
            Ok(Role::Oberon)
        } else if s == "percival".to_owned() {
            Ok(Role::Percival)
        } else if s == "reverseoberon".to_owned() {
            Ok(Role::ReverseOberon)
        } else if s == "servant".to_owned() {
            Ok(Role::Servant)
        } else {
            assert forall|role: Role| role_name(role) != s@ by {
                match role {
                    Role::Assassin => {},
                    Role::Merlin => {},
                    Role::Minion => {},
                    Role::Mordred => {},
                    Role::Morgana => {},
                    Role::Oberon => {},
                    Role::Percival => {},
                    Role::ReverseOberon => {},
                    Role::Servant => {},
                }
            }
            Err(DecodingError::UnknownRole)
        };
        proof {
            if let Ok(role) = r {
                assert(role_name(role) == s@);
            }
        }
        r
    }
}

impl QuestStatus {
    /// Reads a quest status from its lowercase name; any other text is refused.
    pub fn from_name(s: &str) -> (r: Result<QuestStatus, DecodingError>)
        ensures
            r matches Ok(st) ==> status_name(st) == s@,
            r is Err <==> forall|st: QuestStatus| status_name(st) != s@,
            r matches Err(e) ==> e == DecodingError::UnknownStatus,
    {
        let s = s.to_owned();
        if s == "success".to_owned() {
            Ok(QuestStatus::Success)
        } else if s == "fail".to_owned() {
            Ok(QuestStatus::Fail)
        } else {
            Err(DecodingError::UnknownStatus)
        }
    }
}

impl Alignment {
    /// Reads an alignment from its lowercase name; any other text is refused.
    pub fn from_name(s: &str) -> (r: Result<Alignment, DecodingError>)
        ensures
            r matches Ok(a) ==> alignment_name(a) == s@,
            r is Err <==> forall|a: Alignment| alignment_name(a) != s@,
            r matches Err(e) ==> e == DecodingError::UnknownAlignment,
    {
        let s = s.to_owned();
        if s == "good".to_owned() {
            Ok(Alignment::Good)
        } else if s == "evil".to_owned() {
            Ok(Alignment::Evil)
        } else {
            Err(DecodingError::UnknownAlignment)
        }
    }
}

impl VictoryType {
    /// Reads a victory type from its lowercase name; any other text is refused.
    pub fn from_name(s: &str) -> (r: Result<VictoryType, DecodingError>)
        ensures
            r matches Ok(v) ==> victory_name(v) == s@,
            r is Err <==> forall|v: VictoryType| victory_name(v) != s@,
            r matches Err(e) ==> e == DecodingError::UnknownVictoryType,
    {
        let s = s.to_owned();
        if s == "assassination".to_owned() {
            Ok(VictoryType::Assassination)
        } else if s == "quest".to_owned() {
            Ok(VictoryType::Quest)
        } else {
            Err(DecodingError::UnknownVictoryType)
        }
    }
}

/// Every role has exactly one faction, and the evil roles are exactly
/// the assassin, Morgana, the minion, Mordred and Oberon.
pub proof fn lemma_alignment_partition(r: Role)
    ensures
        alignment_of(r) == Alignment::Good || alignment_of(r) == Alignment::Evil,
        alignment_of(r) != Alignment::Good || alignment_of(r) != Alignment::Evil,
        (alignment_of(r) == Alignment::Evil) <==> (r == Role::Assassin || r == Role::Morgana
            || r == Role::Minion || r == Role::Mordred || r == Role::Oberon),
        (alignment_of(r) == Alignment::Good) <==> (r == Role::Merlin || r == Role::Percival
            || r == Role::ReverseOberon || r == Role::Servant),
{
}

} // verus!
