use robbot::command::{
    all_user_ids, casual_name_for_id, casual_usernames, parse_command, parse_model, parse_user,
    user_id_for_casual, user_ids_for_chat_model, username_for_id, ChatCommand, ChatModel,
};

#[test]
fn directory_lookups() {
    assert_eq!(casual_usernames().len(), 3);
    assert_eq!(all_user_ids(), vec![101710896, 99688863, 91597707]);
    assert_eq!(casual_name_for_id(99688863), "robe");
    assert_eq!(casual_name_for_id(101710896), "michael");
    assert_eq!(user_id_for_casual("mikel"), Some(91597707));
    assert_eq!(user_id_for_casual("nobody"), None);
    assert_eq!(username_for_id(101710896), "Michael Shaw");
    assert_eq!(username_for_id(91597707), "Michael Grogan");
}

#[test]
fn parse_user_accepts_known_names_only() {
    assert_eq!(parse_user("robe"), Some(String::from("robe")));
    assert_eq!(parse_user("stranger"), None);
}

#[test]
fn parse_model_names() {
    assert_eq!(parse_model("me"), Some(ChatModel::Me));
    assert_eq!(parse_model("hydra"), Some(ChatModel::All));
    assert_eq!(parse_model("random"), Some(ChatModel::Random));
    assert_eq!(
        parse_model("michael"),
        Some(ChatModel::User(String::from("michael")))
    );
    assert_eq!(parse_model("what"), None);
}

#[test]
fn parse_command_heads() {
    assert_eq!(parse_command("/roll"), Some(ChatCommand::Roll));
    assert_eq!(parse_command("/help"), Some(ChatCommand::Help));
    assert_eq!(
        parse_command("/hydra"),
        Some(ChatCommand::Generate(ChatModel::All))
    );
    assert_eq!(
        parse_command("/poke"),
        Some(ChatCommand::Generate(ChatModel::Random))
    );
    assert_eq!(parse_command("hello"), None);
}

#[test]
fn parse_command_with_suffixes() {
    assert_eq!(
        parse_command("/gen_robe"),
        Some(ChatCommand::Generate(ChatModel::User(String::from("robe"))))
    );
    assert_eq!(
        parse_command("/gen_me"),
        Some(ChatCommand::Generate(ChatModel::Me))
    );
    assert_eq!(
        parse_command("/gen_unknown"),
        Some(ChatCommand::Generate(ChatModel::Random))
    );
    assert_eq!(
        parse_command("/finish"),
        Some(ChatCommand::Finish(ChatModel::Random))
    );
    assert_eq!(
        parse_command("/search_mikel"),
        Some(ChatCommand::Search(Some(String::from("mikel"))))
    );
    assert_eq!(
        parse_command("/search_nobody"),
        Some(ChatCommand::Search(None))
    );
    assert_eq!(parse_command("/search"), Some(ChatCommand::Search(None)));
}

#[test]
fn search_scope_for_models() {
    assert_eq!(
        user_ids_for_chat_model(&Some(String::from("robe"))),
        vec![99688863]
    );
    assert_eq!(
        user_ids_for_chat_model(&None),
        vec![101710896, 99688863, 91597707]
    );
}
