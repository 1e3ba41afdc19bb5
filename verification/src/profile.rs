use vstd::prelude::*;

verus! {

/// What `uuid::Uuid::parse_str` gives for a text: the UUID's 128 bits
/// (big-endian), or the text of the error.
pub uninterp spec fn uuid_parse(text: Seq<char>) -> Result<u128, Seq<char>>;

/// The view of a UUID parse result, its error taken as characters.
pub open spec fn uuid_result_view(r: Result<u128, String>) -> Result<u128, Seq<char>> {
    match r {
        Ok(v) => Ok(v),
        Err(m) => Err(m@),
    }
}

/// Parses a UUID with `uuid::Uuid::parse_str` (simple, hyphenated, braced or
/// URN form) and returns its 128 bits, or the error's message. The result
/// is a function of the text alone; this crate states nothing more of it.
#[verifier::external_body]
pub(crate) fn parse_uuid(text: &str) -> (r: Result<u128, String>)
    ensures
        uuid_result_view(r) == uuid_parse(text@),
{
    match uuid::Uuid::parse_str(text) {
        Ok(id) => Ok(id.as_u128()),
        Err(e) => Err(e.to_string()),
    }
}

/// A player's identity: an optional UUID and a name.
#[derive(Debug, Clone, PartialEq, Eq)]
pub struct GameProfile {
    id: Option<u128>,
    name: String,
}

impl GameProfile {
    pub closed spec fn spec_id(&self) -> Option<u128> {
        self.id
    }

    pub closed spec fn spec_name(&self) -> Seq<char> {
        self.name@
    }

    /// A profile with the given id and name.
    pub fn new(id: Option<u128>, name: String) -> (p: GameProfile)
        ensures
            p.spec_id() == id,
            p.spec_name() == name@,
    {
        GameProfile { id, name }
    }

    /// The UUID, if known.
    pub fn getId(&self) -> (id: Option<u128>)
        ensures
            id == self.spec_id(),
    {
        self.id
    }

    /// The player name.
    pub fn getName(&self) -> (n: &str)
        ensures
            n@ == self.spec_name(),
    {
        self.name.as_str()
    }
}

/// The session string that the authentication server expects.
pub open spec fn session_id(token: Seq<char>, player: Seq<char>) -> Seq<char> {
    "token:"@ + token + ":"@ + player
}

/// The signed-in user: name, player id, access token and account type.
#[derive(Debug, Clone, PartialEq, Eq)]
pub struct Session {
    username: String,
    playerID: String,
    token: String,
    sessionType: String,
}

impl Session {
    pub closed spec fn username(&self) -> Seq<char> {
        self.username@
    }

    pub closed spec fn player_id(&self) -> Seq<char> {
        self.playerID@
    }

    pub closed spec fn token(&self) -> Seq<char> {
        self.token@
    }

    pub closed spec fn session_type(&self) -> Seq<char> {
        self.sessionType@
    }

    pub fn new(username: &str, playerID: &str, token: &str, sessionType: &str) -> (s: Session)
        ensures
            s.username() == username@,
            s.player_id() == playerID@,
            s.token() == token@,
            s.session_type() == sessionType@,
    {
        Session {
            username: String::from_str(username),
            playerID: String::from_str(playerID),
            token: String::from_str(token),
            sessionType: String::from_str(sessionType),
        }
    }

    pub fn getUsername(&self) -> (r: &str)
        ensures
            r@ == self.username(),
    {
        self.username.as_str()
    }

    pub fn getPlayerID(&self) -> (r: &str)
        ensures
            r@ == self.player_id(),
    {
        self.playerID.as_str()
    }

    pub fn getToken(&self) -> (r: &str)
        ensures
            r@ == self.token(),
    {
        self.token.as_str()
    }

    pub fn getSessionType(&self) -> (r: &str)
        ensures
            r@ == self.session_type(),
    {
        self.sessionType.as_str()
    }

    /// `token:<token>:<player id>`.
    pub fn getSessionID(&self) -> (r: String)
        ensures
            r@ == session_id(self.token(), self.player_id()),
    {
        let r = String::from_str("token:");
        let r = r.concat(self.token.as_str());
        let r = r.concat(":");
        r.concat(self.playerID.as_str())
    }

    /// The user's profile: the player id parsed as a UUID (none when it is
    /// not one) and the user name.
    pub fn getProfile(&self) -> (p: GameProfile)
        ensures
            p.spec_name() == self.username(),
            p.spec_id() == match uuid_parse(self.player_id()) {
                Ok(v) => Some(v),
                Err(_) => None::<u128>,
            },
    {
        let id = match parse_uuid(self.playerID.as_str()) {
            Ok(v) => Some(v),
            Err(_) => None,
        };
        GameProfile::new(id, self.username.clone())
    }
}

} // verus!
