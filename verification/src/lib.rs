pub mod card;
pub mod deck;
pub mod game;
pub mod json;

use vstd::prelude::*;
use vstd::string::StringExecFns;

verus! {

/// Outcome of a single finished game, as reported by the client: a game
/// number and whether the local player won. The number -1 stands for "no
/// games played yet".
pub struct GameStatus {
    pub game_id: i32,
    pub is_winner: bool,
}

impl GameStatus {
    pub fn new(game_id: i32, is_winner: bool) -> (r: Self)
        ensures
            r.game_id == game_id,
            r.is_winner == is_winner,
    {
        GameStatus { game_id, is_winner }
    }

    /// The outcome as text.
    pub open spec fn spec_result(&self) -> Seq<char> {
        if self.game_id == -1 {
            "No games played"@
        } else if self.is_winner {
            "Win"@
        } else {
            "Loss"@
        }
    }

    /// The outcome as text: no game at all, a win, or a loss.
    pub fn result(&self) -> (r: &'static str)
        ensures
            r@ == self.spec_result(),
    {
        if self.game_id == -1 {
            "No games played"
        } else if self.is_winner {
            "Win"
        } else {
            "Loss"
        }
    }
}

/// The decimal digits of a non-negative number, most significant first.
pub open spec fn dec_str(n: int) -> Seq<char>
    recommends
        n >= 0,
    decreases n,
{
    if n < 10 {
        seq![digit_char(n)]
    } else {
        dec_str(n / 10).push(digit_char(n % 10))
    }
}

pub open spec fn digit_char(d: int) -> char {
    if d == 0 {
        '0'
    } else if d == 1 {
        '1'
    } else if d == 2 {
        '2'
    } else if d == 3 {
        '3'
    } else if d == 4 {
        '4'
    } else if d == 5 {
        '5'
    } else if d == 6 {
        '6'
    } else if d == 7 {
        '7'
    } else if d == 8 {
        '8'
    } else {
        '9'
    }
}

/// One decimal digit as text.
fn digit_str(d: u16) -> (r: &'static str)
    requires
        d < 10,
    ensures
        r@ == seq![digit_char(d as int)],
{
    proof {
        reveal_strlit("0");
        reveal_strlit("1");
        reveal_strlit("2");
        reveal_strlit("3");
        reveal_strlit("4");
        reveal_strlit("5");
        reveal_strlit("6");
        reveal_strlit("7");
        reveal_strlit("8");
        reveal_strlit("9");
    }
    let r = match d {
        0 => "0",
        1 => "1",
        2 => "2",
        3 => "3",
        4 => "4",
        5 => "5",
        6 => "6",
        7 => "7",
        8 => "8",
        _ => "9",
    };
    proof {
        assert(r@ =~= seq![digit_char(d as int)]);
    }
    r
}

/// Append the decimal rendering of `n`.
fn push_decimal(s: &mut String, n: u16)
    ensures
        final(s)@ == old(s)@ + dec_str(n as int),
    decreases n,
{
    if n >= 10 {
        push_decimal(s, n / 10);
    }
    s.append(digit_str(n % 10));
    proof {
        if n < 10 {
            assert(old(s)@ + dec_str(n as int) =~= old(s)@ + seq![digit_char(n as int)]);
        } else {
            assert((old(s)@ + dec_str(n as int / 10)) + seq![digit_char(n as int % 10)] =~= old(
                s,
            )@ + dec_str(n as int));
        }
    }
}

/// The local game client's HTTP endpoint: a base URL built from a fixed
/// localhost prefix and the configured port, plus the API key the host
/// sends along. The core only assembles the addresses; the host performs
/// the requests.
pub struct LoRClient {
    baseurl: String,
    api_key: String,
    port: u16,
}

impl LoRClient {
    pub closed spec fn spec_baseurl(&self) -> Seq<char> {
        self.baseurl@
    }

    pub closed spec fn spec_api_key(&self) -> Seq<char> {
        self.api_key@
    }

    pub closed spec fn spec_port(&self) -> u16 {
        self.port
    }

    pub fn new(api_key: String, port: u16) -> (r: Self)
        ensures
            r.spec_baseurl() == "http://localhost:"@ + dec_str(port as int),
            r.spec_api_key() == api_key@,
            r.spec_port() == port,
    {
        let mut baseurl = String::from_str("http://localhost:");
        push_decimal(&mut baseurl, port);
        LoRClient { baseurl, api_key, port }
    }

    /// The URL of one endpoint: the base URL, a slash, and the endpoint
    /// name.
    pub fn endpoint_url(&self, endpoint: &str) -> (r: String)
        ensures
            r@ == self.spec_baseurl() + "/"@ + endpoint@,
    {
        let mut url = self.baseurl.clone();
        url.append("/");
        url.append(endpoint);
        url
    }

    pub fn base_url(&self) -> (r: &String)
        ensures
            r@ == self.spec_baseurl(),
    {
        &self.baseurl
    }

    pub fn api_key(&self) -> (r: &String)
        ensures
            r@ == self.spec_api_key(),
    {
        &self.api_key
    }

    pub fn port(&self) -> (r: u16)
        ensures
            r == self.spec_port(),
    {
        self.port
    }
}

} // verus!
