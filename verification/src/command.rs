//! Chat command parsing and the small fixed user directory.

use vstd::prelude::*;

use crate::model::Model;
use crate::model::UserGenerativeModel;
use crate::model::UserId;
use crate::model::in_keys;
use crate::generate::choose_user;
use crate::text::str_eq;

verus! {

/// The known chat users' identifiers.
pub open spec fn known_id(id: UserId) -> bool {
    id == 101710896 || id == 99688863 || id == 91597707
}

/// The short names the commands accept.
pub open spec fn is_casual(s: Seq<char>) -> bool {
    s == "michael"@ || s == "robe"@ || s == "mikel"@
}

/// The identifier behind a short name.
pub open spec fn casual_id(s: Seq<char>) -> UserId {
    if s == "michael"@ {
        101710896
    } else if s == "robe"@ {
        99688863
    } else {
        91597707
    }
}

/// Each known identifier's short name.
pub open spec fn casual_name(id: UserId) -> Seq<char> {
    if id == 101710896 {
        "michael"@
    } else if id == 99688863 {
        "robe"@
    } else {
        "michael"@
    }
}

/// Each known identifier's display name.
pub open spec fn username_text(id: UserId) -> Seq<char> {
    if id == 101710896 {
        "Michael Shaw"@
    } else if id == 99688863 {
        "Robe"@
    } else {
        "Michael Grogan"@
    }
}

/// All accepted short names.
pub fn casual_usernames() -> (r: Vec<String>)
    ensures
        r@.len() == 3,
        r@[0]@ == "michael"@,
        r@[1]@ == "robe"@,
        r@[2]@ == "mikel"@,
{
    let mut r: Vec<String> = Vec::new();
    r.push(String::from_str("michael"));
    r.push(String::from_str("robe"));
    r.push(String::from_str("mikel"));
    r
}

/// All known user identifiers.
pub fn all_user_ids() -> (r: Vec<UserId>)
    ensures
        r@ =~= seq![101710896u64, 99688863u64, 91597707u64],
{
    let mut r: Vec<UserId> = Vec::new();
    r.push(101710896);
    r.push(99688863);
    r.push(91597707);
    proof {
        assert(r@ =~= seq![101710896u64, 99688863u64, 91597707u64]);
    }
    r
}

/// The short name of a known identifier.
pub fn casual_name_for_id(id: UserId) -> (r: String)
    requires
        known_id(id),
    ensures
        r@ == casual_name(id),
{
    if id == 101710896 {
        String::from_str("michael")
    } else if id == 99688863 {
        String::from_str("robe")
    } else {
        String::from_str("michael")
    }
}

/// The identifier behind a short name, if the name is known.
pub fn user_id_for_casual(name: &str) -> (r: Option<UserId>)
    ensures
        (r is Some) == is_casual(name@),
        r matches Some(id) ==> id == casual_id(name@) && known_id(id),
{
    if str_eq(name, "michael") {
        Some(101710896)
    } else if str_eq(name, "robe") {
        Some(99688863)
    } else if str_eq(name, "mikel") {
        Some(91597707)
    } else {
        None
    }
}

/// The display name of a known identifier.
pub fn username_for_id(id: UserId) -> (r: String)
    requires
        known_id(id),
    ensures
        r@ == username_text(id),
{
    if id == 101710896 {
        String::from_str("Michael Shaw")
    } else if id == 99688863 {
        String::from_str("Robe")
    } else {
        String::from_str("Michael Grogan")
    }
}

/// A parsed chat command.
#[derive(Eq, PartialEq, Clone, Debug)]
pub enum ChatCommand {
    /// Show the help text.
    Help,
    /// Search the logs, optionally restricted to one short name.
    Search(Option<String>),
    /// Generate a sentence with the chosen model.
    Generate(ChatModel),
    /// Finish a given sentence start with the chosen model.
    Finish(ChatModel),
    /// Roll dice.
    Roll,
}

/// Which user's model a generation command addresses.
#[derive(Eq, PartialEq, Debug, Clone)]
pub enum ChatModel {
    /// The sender's own model.
    Me,
    /// A randomly chosen user's model.
    Random,
    /// The aggregate model over all users.
    All,
    /// A named user's model.
    User(String),
}

/// Mathematical model of [`ChatModel`].
pub enum ChatModelView {
    /// The sender's own model.
    Me,
    /// A randomly chosen user's model.
    Random,
    /// The aggregate model over all users.
    All,
    /// A named user's model.
    User(Seq<char>),
}

/// Mathematical model of [`ChatCommand`].
pub enum ChatCommandView {
    /// Show the help text.
    Help,
    /// Search the logs, optionally restricted to one short name.
    Search(Option<Seq<char>>),
    /// Generate a sentence with the chosen model.
    Generate(ChatModelView),
    /// Finish a given sentence start with the chosen model.
    Finish(ChatModelView),
    /// Roll dice.
    Roll,
}

impl View for ChatModel {
    type V = ChatModelView;

    open spec fn view(&self) -> ChatModelView {
        match self {
            ChatModel::Me => ChatModelView::Me,
            ChatModel::Random => ChatModelView::Random,
            ChatModel::All => ChatModelView::All,
            ChatModel::User(s) => ChatModelView::User(s@),
        }
    }
}

impl View for ChatCommand {
    type V = ChatCommandView;

    open spec fn view(&self) -> ChatCommandView {
        match self {
            ChatCommand::Help => ChatCommandView::Help,
            ChatCommand::Search(o) => ChatCommandView::Search(
                match o {
                    Some(s) => Some(s@),
                    None => None,
                },
            ),
            ChatCommand::Generate(m) => ChatCommandView::Generate(m@),
            ChatCommand::Finish(m) => ChatCommandView::Finish(m@),
            ChatCommand::Roll => ChatCommandView::Roll,
        }
    }
}

/// The short name itself, when it is known.
pub fn parse_user(model: &str) -> (r: Option<String>)
    ensures
        (r is Some) == is_casual(model@),
        r matches Some(s) ==> s@ == model@,
{
    if str_eq(model, "michael") || str_eq(model, "robe") || str_eq(model, "mikel") {
        Some(String::from_str(model))
    } else {
        None
    }
}

/// The model a command suffix names, if any.
pub open spec fn model_of(s: Seq<char>) -> Option<ChatModelView> {
    if s == "me"@ {
        Some(ChatModelView::Me)
    } else if s == "hydra"@ {
        Some(ChatModelView::All)
    } else if s == "random"@ {
        Some(ChatModelView::Random)
    } else if is_casual(s) {
        Some(ChatModelView::User(s))
    } else {
        None
    }
}

/// Parse a command suffix into the model it names.
pub fn parse_model(model: &str) -> (r: Option<ChatModel>)
    ensures
        (match r {
            Some(m) => Some(m@),
            None => None::<ChatModelView>,
        }) == model_of(model@),
{
    if str_eq(model, "me") {
        Some(ChatModel::Me)
    } else if str_eq(model, "hydra") {
        Some(ChatModel::All)
    } else if str_eq(model, "random") {
        Some(ChatModel::Random)
    } else if str_eq(model, "michael") || str_eq(model, "robe") || str_eq(model, "mikel") {
        Some(ChatModel::User(String::from_str(model)))
    } else {
        None
    }
}

/// The position of the first underscore at or after `i`, or the end.
pub open spec fn us_end(s: Seq<char>, i: int) -> int
    decreases s.len() - i,
{
    if 0 <= i < s.len() && s[i] != '_' {
        us_end(s, i + 1)
    } else {
        i
    }
}

/// The command's head: everything before the first underscore.
pub open spec fn head_of(s: Seq<char>) -> Seq<char> {
    s.take(us_end(s, 0))
}

/// The command's second underscore-separated part, if any.
pub open spec fn second_of(s: Seq<char>) -> Option<Seq<char>> {
    let e = us_end(s, 0);
    if e == s.len() {
        None
    } else {
        Some(s.subrange(e + 1, us_end(s, e + 1)))
    }
}

/// The command a full message head denotes, if any: the part before the
/// first underscore picks the command, the part between the first and
/// second underscores picks the user or model.
pub open spec fn command_of(s: Seq<char>) -> Option<ChatCommandView> {
    let h = head_of(s);
    let sec = second_of(s);
    if h == "/roll"@ {
        Some(ChatCommandView::Roll)
    } else if h == "/help"@ {
        Some(ChatCommandView::Help)
    } else if h == "/search"@ {
        Some(
            ChatCommandView::Search(
                match sec {
                    Some(m) => if is_casual(m) {
                        Some(m)
                    } else {
                        None
                    },
                    None => None,
                },
            ),
        )
    } else if h == "/hydra"@ {
        Some(ChatCommandView::Generate(ChatModelView::All))
    } else if h == "/poke"@ {
        Some(ChatCommandView::Generate(ChatModelView::Random))
    } else if h == "/finish"@ {
        Some(ChatCommandView::Finish(suffix_model(sec)))
    } else if h == "/gen"@ {
        Some(ChatCommandView::Generate(suffix_model(sec)))
    } else {
        None
    }
}

/// The model named by an optional command suffix, defaulting to a random
/// user.
pub open spec fn suffix_model(sec: Option<Seq<char>>) -> ChatModelView {
    match sec {
        Some(m) => match model_of(m) {
            Some(mv) => mv,
            None => ChatModelView::Random,
        },
        None => ChatModelView::Random,
    }
}

/// Executable scan to the first underscore.
fn scan_us(s: &str, from: usize) -> (r: usize)
    requires
        from <= s@.len(),
    ensures
        r == us_end(s@, from as int),
        from <= r <= s@.len(),
{
    let n = s.unicode_len();
    let mut i = from;
    loop
        invariant_except_break
            n == s@.len(),
            from <= i <= n,
            us_end(s@, from as int) == us_end(s@, i as int),
        ensures
            i == us_end(s@, from as int),
            from <= i <= n,
        decreases n - i,
    {
        if i >= n {
            break ;
        }
        if s.get_char(i) == '_' {
            break ;
        }
        i += 1;
    }
    i
}

/// Parse one chat command, per [`command_of`].
pub fn parse_command(command: &str) -> (r: Option<ChatCommand>)
    ensures
        (match r {
            Some(c) => Some(c@),
            None => None::<ChatCommandView>,
        }) == command_of(command@),
{
    let n = command.unicode_len();
    let e = scan_us(command, 0);
    let head = command.substring_char(0, e);
    proof {
        assert(head@ =~= head_of(command@));
    }
    let second: Option<String> = if e < n {
        let e2 = scan_us(command, e + 1);
        let sec = command.substring_char(e + 1, e2);
        proof {
            assert(sec@ =~= second_of(command@).unwrap());
        }
        Some(String::from_str(sec))
    } else {
        None
    };

    if str_eq(head, "/roll") {
        Some(ChatCommand::Roll)
    } else if str_eq(head, "/help") {
        Some(ChatCommand::Help)
    } else if str_eq(head, "/search") {
        let maybe_user = match &second {
            Some(m) => parse_user(m.as_str()),
            None => None,
        };
        Some(ChatCommand::Search(maybe_user))
    } else if str_eq(head, "/hydra") {
        Some(ChatCommand::Generate(ChatModel::All))
    } else if str_eq(head, "/poke") {
        Some(ChatCommand::Generate(ChatModel::Random))
    } else if str_eq(head, "/finish") {
        let m = match &second {
            Some(sec) => match parse_model(sec.as_str()) {
                Some(m) => m,
                None => ChatModel::Random,
            },
            None => ChatModel::Random,
        };
        Some(ChatCommand::Finish(m))
    } else if str_eq(head, "/gen") {
        let m = match &second {
            Some(sec) => match parse_model(sec.as_str()) {
                Some(m) => m,
                None => ChatModel::Random,
            },
            None => ChatModel::Random,
        };
        Some(ChatCommand::Generate(m))
    } else {
        None
    }
}

/// The identifiers a search restriction covers: one short name's, or all.
pub fn user_ids_for_chat_model(username: &Option<String>) -> (r: Vec<UserId>)
    requires
        username matches Some(n) ==> is_casual(n@),
    ensures
        match username {
            Some(n) => r@ =~= seq![casual_id(n@)],
            None => r@ =~= seq![101710896u64, 99688863u64, 91597707u64],
        },
{
    match username {
        Some(name) => {
            let id = user_id_for_casual(name.as_str()).unwrap();
            let mut r: Vec<UserId> = Vec::new();
            r.push(id);
            proof {
                assert(r@ =~= seq![casual_id(name@)]);
            }
            r
        },
        None => all_user_ids(),
    }
}

/// The position of a user id among the packed user models.
fn find_user_model(entries: &Vec<(UserId, UserGenerativeModel)>, id: UserId) -> (r: Option<usize>)
    ensures
        r matches Some(i) ==> 0 <= i < entries@.len() && entries@[i as int].0 == id,
        r is None ==> !in_keys(entries@, id),
{
    let mut i: usize = 0;
    while i < entries.len()
        invariant
            i <= entries@.len(),
            forall|j: int| 0 <= j < i ==> (#[trigger] entries@[j]).0 != id,
        decreases entries@.len() - i,
    {
        if entries[i].0 == id {
            return Some(i);
        }
        i += 1;
    }
    None
}

/// Resolve a command's model choice to a display name and the packed
/// model to sample from.
pub fn get_generative_model<'a>(
    m: &'a Model,
    chat_model: &ChatModel,
    user_id: UserId,
    rng: &mut rand::XorShiftRng,
) -> (r: (String, &'a UserGenerativeModel))
    requires
        match chat_model {
            ChatModel::Me => known_id(user_id) && in_keys(m.users@, user_id),
            ChatModel::All => true,
            ChatModel::User(name) => is_casual(name@) && in_keys(m.users@, casual_id(name@)),
            ChatModel::Random => m.users@.len() >= 1 && forall|i: int|
                0 <= i < m.users@.len() ==> known_id((#[trigger] m.users@[i]).0),
        },
    ensures
        match chat_model {
            ChatModel::Me => r.0@ == username_text(user_id) && exists|i: int|
                0 <= i < m.users@.len() && (#[trigger] m.users@[i]).0 == user_id && r.1
                    == &m.users@[i].1,
            ChatModel::All => r.0@ == "hydra"@ && r.1 == &m.shared,
            ChatModel::User(name) => r.0@ == username_text(casual_id(name@)) && exists|i: int|
                0 <= i < m.users@.len() && (#[trigger] m.users@[i]).0 == casual_id(name@) && r.1
                    == &m.users@[i].1,
            ChatModel::Random => exists|i: int|
                0 <= i < m.users@.len() && r.0@ == username_text((#[trigger] m.users@[i]).0) && r.1
                    == &m.users@[i].1,
        },
{
    match chat_model {
        ChatModel::Me => {
            let i = find_user_model(&m.users, user_id).unwrap();
            (username_for_id(user_id), &m.users[i].1)
        },
        ChatModel::All => (String::from_str("hydra"), &m.shared),
        ChatModel::User(name) => {
            let uid = user_id_for_casual(name.as_str()).unwrap();
            let i = find_user_model(&m.users, uid).unwrap();
            (username_for_id(uid), &m.users[i].1)
        },
        ChatModel::Random => {
            let uid = choose_user(m, rng);
            proof {
                let k = choose|k: int| 0 <= k < m.users@.len() && uid == (#[trigger] m.users@[k]).0;
                assert(known_id(uid));
                assert(in_keys(m.users@, uid));
            }
            let i = find_user_model(&m.users, uid).unwrap();
            (username_for_id(uid), &m.users[i].1)
        },
    }
}

} // verus!
