use kvkv::command::Command;
use kvkv::resp::RespValue;

#[test]
fn parse_get_command() {
    let v = RespValue::array(&["GET", "CS"]);
    let cmd = Command::from_resp(v).unwrap();
    assert_eq!(cmd, Command::Get("CS".into()));
}

#[test]
fn parse_set_command() {
    let v = RespValue::array(&["SET", "CS", "Cloud Computing"]);
    let cmd = Command::from_resp(v).unwrap();
    assert_eq!(cmd, Command::Put("CS".into(), "Cloud Computing".into()));
}

#[test]
fn parse_del_command() {
    let v = RespValue::array(&["DEL", "CS", "Sadness", "Sorrow"]);
    let cmd = Command::from_resp(v).unwrap();
    assert_eq!(
        cmd,
        Command::Del(vec!["CS".into(), "Sadness".into(), "Sorrow".into()])
    );
}
