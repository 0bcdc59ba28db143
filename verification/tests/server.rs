use miktik_api::metrics::Metrics;
use miktik_api::session::connection_verdict;
use miktik_api::session::login_outcome;
use miktik_api::session::admission;
use miktik_api::session::console_step;
use miktik_api::session::Admission;
use miktik_api::session::ConsoleStep;
use miktik_api::session::ConnectionError;
use miktik_api::session::Session;
use miktik_api::config::Queries;
use miktik_api::teller::disconnected;
use miktik_api::teller::metrics_page;
use miktik_api::teller::resolve_query_words;
use miktik_api::teller::retain_failed;
use miktik_api::teller::route;
use miktik_api::teller::substitute_item;
use miktik_api::teller::Route;
use miktik_api::teller::command_outcome;
use miktik_api::teller::polled;
use miktik_api::teller::Step;

fn sample(name: &str, graph: bool, value: &str) -> (String, bool, String) {
    (name.to_string(), graph, value.to_string())
}

fn neighbours() -> Metrics {
    let mut m = Metrics::new();
    m.append_records(
        "neighbors".to_string(),
        vec![
            vec![sample("address", false, "10.0.0.2"), sample("routerboard_name", false, "r1")],
            vec![sample("address", false, "10.0.0.3"), sample("routerboard_name", false, "r2")],
            vec![sample("address", false, "10.0.0.4"), sample("address", false, "10.0.0.5"), sample("routerboard_name", false, "r1")],
        ],
    );
    m
}

#[test]
fn substitution_of_gathered_values() {
    let m = neighbours();
    assert_eq!(
        substitute_item("=address=${neighbors.address}", &m, "r1"),
        Some("=address=10.0.0.2,10.0.0.4,10.0.0.5,".to_string())
    );
    assert_eq!(substitute_item("=address=${ neighbors.address }x", &m, "r2"), Some("=address=10.0.0.3,x".to_string()));
    assert_eq!(substitute_item("=address=${neighbors.address}", &m, "r9"), Some("=address=".to_string()));
    assert_eq!(substitute_item("=address=1.1.1.1", &m, "r1"), None);
    assert_eq!(substitute_item("=address=${missing.address}", &m, "r1"), None);
    assert_eq!(substitute_item("=address=${neighbors}", &m, "r1"), None);
}

#[test]
fn resolving_query_words() {
    let m = neighbours();
    let words = vec!["=count=1".to_string(), "=address=${neighbors.address}".to_string()];
    assert_eq!(
        resolve_query_words(&words, &m, "r2"),
        vec!["=count=1".to_string(), "=address=10.0.0.3,".to_string()]
    );
}

#[test]
fn routes_of_requests() {
    assert_eq!(route("/metrics"), Route::Metrics);
    assert_eq!(route("/"), Route::Home);
    assert_eq!(route("/imgs/gears.gif"), Route::Gears);
    assert_eq!(route("/config/update"), Route::ConfigUpdate);
    assert_eq!(route("/metrics/"), Route::Other);
    assert_eq!(route(""), Route::Other);
}

#[test]
fn page_with_status_lines() {
    let mut m = Metrics::new();
    m.append_records("ping".to_string(), vec![vec![sample("time", true, "3")]]);
    let names = vec!["r1".to_string(), "r2".to_string()];
    let page = metrics_page(&names, &vec![1], &m);
    assert_eq!(
        page,
        "miktik__connection__status__{routerboard_name=\"r1\"} 1\nmiktik__connection__status__{routerboard_name=\"r2\"} 0\nmiktik_ping_time{} 3\n"
    );
}

#[test]
fn reconnection_candidates() {
    assert_eq!(disconnected(&vec![true, false, true, false]), vec![1, 3]);
    assert_eq!(disconnected(&vec![]), Vec::<usize>::new());
    assert_eq!(retain_failed(&vec![1, 3, 4], &vec![true, false, false]), vec![3, 4]);
    assert_eq!(retain_failed(&vec![1, 3], &vec![true, true]), Vec::<usize>::new());
}

#[test]
fn metrics_entries_accumulate() {
    let mut m = Metrics::new();
    m.append_records("a".to_string(), vec![vec![sample("x", true, "1")]]);
    m.append_records("b".to_string(), vec![vec![sample("y", true, "2")]]);
    m.append_records("a".to_string(), vec![vec![sample("z", true, "3")]]);
    assert_eq!(m.groups.len(), 2);
    assert_eq!(m.get("a").unwrap().len(), 2);
    assert_eq!(m.get("a").unwrap()[1][0].0, "z");
    assert_eq!(m.get("b").unwrap().len(), 1);
    assert!(m.get("c").is_none());
    let mut other = Metrics::new();
    other.append_records("c".to_string(), vec![vec![]]);
    other.append_records("b".to_string(), vec![vec![], vec![]]);
    m.absorb(other);
    assert_eq!(m.groups.len(), 3);
    assert_eq!(m.get("b").unwrap().len(), 3);
    assert_eq!(m.groups[2].0, "c");
    m.clear();
    assert!(m.get("a").is_none());
}

#[test]
fn sessions_keep_settings() {
    let s = Session::opened("h:8728".to_string(), "r1".to_string(), false, Some("c".to_string()), None, true);
    assert!(s.cert.is_none());
    assert!(s.is_connected());
    let s = Session::opened("h:8729".to_string(), "r1".to_string(), true, Some("c".to_string()), None, true);
    assert_eq!(s.cert, Some("c".to_string()));
    assert!(s.secured);
    let s = Session::opened("h:8728".to_string(), "r1".to_string(), false, Some("c".to_string()), None, false);
    assert_eq!(s.cert, Some("c".to_string()));
    assert!(!s.is_connected());
    assert_eq!(s.describe(), "r1 (h:8728)");
}

#[test]
fn credentials_and_login_words() {
    let mut s = Session::opened("h".to_string(), "r".to_string(), false, None, None, true);
    s.set_credentials("admin", "pw", false);
    s.set_credentials("other", "pw2", false);
    assert_eq!(s.username, Some("admin".to_string()));
    assert_eq!(s.password, Some("pw".to_string()));
    assert_eq!(
        s.login_words(),
        vec!["/login".to_string(), "=name=admin".to_string(), "=password=pw".to_string()]
    );
    s.set_credentials("other", "pw2", true);
    assert_eq!(s.username, Some("other".to_string()));
    assert_eq!(s.password, Some("pw2".to_string()));
}

#[test]
fn login_replies() {
    assert_eq!(login_outcome("!done\nret=abc".to_string()), Ok(()));
    assert_eq!(login_outcome("!trap\nmessage=invalid".to_string()), Err("!trap\nmessage=invalid".to_string()));
    let refusal = "!trap\nmessage=invalid user name or password (6)\n!done".to_string();
    assert_eq!(login_outcome(refusal.clone()), Err(refusal));
    assert_eq!(login_outcome("!done\n!fatal\nmessage=x".to_string()), Err("!done\n!fatal\nmessage=x".to_string()));
    assert_eq!(login_outcome("!done\nmessage=!trapped".to_string()), Ok(()));
    assert_eq!(login_outcome(String::new()), Err(String::new()));
    assert_eq!(login_outcome("!re\nret=1".to_string()), Err("!re\nret=1".to_string()));
}

#[test]
fn verdict_of_connections() {
    assert_eq!(connection_verdict(0, 3), Err("Connected to 0 instances!".to_string()));
    assert_eq!(connection_verdict(2, 3), Ok(true));
    assert_eq!(connection_verdict(3, 3), Ok(false));
}

#[test]
fn command_replies_become_errors() {
    let s = Session::opened("10.0.0.1".to_string(), "r1".to_string(), false, None, None, true);
    let q = Queries {
        split_targets: None,
        split_character: None,
        graph_targets: None,
        attributes: None,
        query: None,
        separator: None,
        command: "/x".to_string(),
        name: "x".to_string(),
    };
    match s.decode_command_reply("!trap", &q, true) {
        Err(ConnectionError::ResponceError(msg)) => {
            assert_eq!(msg, "\x1b[38;5;9m!trap\x1b[39m responce from \x1b[38;5;14m10.0.0.1\x1b[39m in command /x")
        }
        _ => panic!("expected a reply error"),
    }
    match s.decode_command_reply("!re\na=b", &q, true) {
        Ok(m) => assert_eq!(m.get("x").unwrap()[0][0], sample("a", false, "b")),
        _ => panic!("expected metrics"),
    }
}

#[test]
fn polling_steps() {
    assert!(polled(&vec![1, 3], 0));
    assert!(!polled(&vec![1, 3], 3));
    let mut gathered = Metrics::new();
    let mut down = vec![1];
    let mut got = Metrics::new();
    got.append_records("a".to_string(), vec![vec![sample("x", true, "1")]]);
    assert!(matches!(command_outcome(&mut gathered, &mut down, 0, Ok(got)), Step::Continue));
    assert_eq!(gathered.get("a").unwrap().len(), 1);
    assert_eq!(down, vec![1]);
    match command_outcome(&mut gathered, &mut down, 0, Err(ConnectionError::ResponceError("bad".to_string()))) {
        Step::Report(msg) => assert_eq!(msg, "bad"),
        _ => panic!("expected a report"),
    }
    assert_eq!(down, vec![1]);
    let err = std::io::Error::from(std::io::ErrorKind::BrokenPipe);
    assert!(matches!(command_outcome(&mut gathered, &mut down, 2, Err(ConnectionError::IoError(err))), Step::Stop(_)));
    assert_eq!(down, vec![1, 2]);
    assert_eq!(gathered.groups.len(), 1);
}

#[test]
fn admission_of_routers() {
    assert_eq!(admission(false, false), Admission::Waiting);
    assert_eq!(admission(false, true), Admission::Waiting);
    assert_eq!(admission(true, true), Admission::Ready);
    assert_eq!(admission(true, false), Admission::Dropped);
}

#[test]
fn console_lines() {
    assert_eq!(console_step("."), ConsoleStep::Stop);
    assert_eq!(console_step("?"), ConsoleStep::Help);
    assert_eq!(console_step(""), ConsoleStep::Send);
    assert_eq!(console_step("/ip/address/print"), ConsoleStep::Collect);
    assert_eq!(console_step(".."), ConsoleStep::Collect);
}

#[test]
fn start_candidates_are_the_unconnected() {
    let flags = vec![false, true, false, true];
    let down = disconnected(&flags);
    assert_eq!(down, vec![0, 2]);
    for i in 0..flags.len() {
        assert_eq!(polled(&down, i), flags[i]);
    }
}

#[test]
fn padded_reference_is_substituted() {
    let m = neighbours();
    assert_eq!(
        substitute_item("=address=${\t neighbors.address  }!", &m, "r2"),
        Some("=address=10.0.0.3,!".to_string())
    );
}
