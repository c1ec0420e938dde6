use std::sync::atomic::AtomicBool;
use std::sync::Arc;

use mythos::position::Position;
use mythos::search::Searcher;
use mythos::web::{
    answer_body, api_play, board_string, build_position, content_length, decode_bytes, engine_answer, escape,
    form_get, format_error, format_head, format_state, is_decodable, parse_request, read_request,
    route, status, url_decode, Route, Status,
};

#[test]
fn percent_encoding_is_undone() {
    assert_eq!(url_decode("e2e4%2Ce7e5"), "e2e4,e7e5");
    assert_eq!(url_decode("a+b%20c"), "a b c");
    assert_eq!(url_decode("100%"), "100%");
    assert_eq!(url_decode("%zz%4"), "%zz%4");
    assert_eq!(url_decode("%+7x"), "\u{7}x");
    assert_eq!(url_decode("%C3%A9"), "é");
    // Bytes that are no text are replaced.
    assert_eq!(url_decode("a%FFb"), "a\u{FFFD}b");
    assert_eq!(decode_bytes(&b"%41%2b".to_vec()), b"A+".to_vec());
}

#[test]
fn forms_are_read() {
    let body = "moves=e2e4%2Ce7e5&engine=1&x&moves=d2d4&movetime=70";
    assert!(is_decodable(body));
    assert_eq!(form_get(body, "moves"), Some("d2d4".to_string()));
    assert_eq!(form_get(body, "engine"), Some("1".to_string()));
    assert_eq!(form_get(body, "x"), None);
    assert_eq!(form_get("a=b=c", "a"), Some("b=c".to_string()));
    // A percent sign whose two bytes end within a character.
    assert!(!is_decodable("a=%aé"));
}

#[test]
fn requests_are_understood() {
    let r = parse_request("moves=e2e4%2C%2Ce7e5&movetime=70&engine=1");
    assert_eq!(r.moves, ["e2e4", "e7e5"]);
    assert_eq!((r.movetime, r.want_engine), (70, true));
    let r = parse_request("");
    assert!(r.moves.is_empty());
    assert_eq!((r.movetime, r.want_engine), (500, false));
    let t = |s: &str| read_request(&None, &Some(s.to_string()), &None).movetime;
    assert_eq!(t("1"), 50);
    assert_eq!(t("99999"), 5000);
    assert_eq!(t("fast"), 500);
    assert!(!read_request(&None, &None, &Some("yes".to_string())).want_engine);
}

#[test]
fn texts_are_escaped() {
    assert_eq!(escape("a\"b\\c"), "a\\\"b\\\\c");
    assert_eq!(escape("plain"), "plain");
    assert_eq!(escape("a\nb\tc\u{1f}"), "a\\u000ab\\u0009c\\u001f");
    assert_eq!(escape(" é"), " é");
    assert_eq!(
        format_error("illegal move 'e2\"' at ply 1"),
        "{\"ok\":false,\"error\":\"illegal move 'e2\\\"' at ply 1\"}"
    );
}

#[test]
fn moves_are_replayed_or_refused() {
    let names = |v: &[&str]| v.iter().map(|s| s.to_string()).collect::<Vec<String>>();
    let g = build_position(&names(&["e2e4", "e7e5"])).ok().unwrap();
    assert_eq!(g.keys.len(), 3);
    let e = build_position(&names(&["e2e4", "e2e4"])).err().unwrap();
    assert_eq!(e, "illegal move 'e2e4' at ply 2");
}

#[test]
fn the_state_of_a_game_is_described() {
    let mut searcher = Searcher::new(1);
    let stop = Arc::new(AtomicBool::new(false));
    let text = api_play("moves=f2f3%2Ce7e5%2Cg2g4%2Cd8h4&engine=1", &mut searcher, &stop);
    assert_eq!(
        text,
        "{\"ok\":true,\"board\":\"RNBQKBNRPPPPP..P.....P........Pq....p...........pppp.ppprnb.kbnr\",\"fen\":\"rnb1kbnr/pppp1ppp/8/4p3/6Pq/5P2/PPPPP2P/RNBQKBNR w KQkq - 1 3\",\"side\":\"white\",\"status\":\"checkmate\",\"winner\":\"black\",\"engineMove\":null,\"legal\":[],\"check\":true}"
    );
    let text = api_play("moves=e2e5", &mut searcher, &stop);
    assert_eq!(text, "{\"ok\":false,\"error\":\"illegal move 'e2e5' at ply 1\"}");
    let text = api_play("", &mut searcher, &stop);
    assert!(text.contains("\"side\":\"white\",\"status\":\"ongoing\",\"winner\":null,\"engineMove\":null"));
    assert!(text.contains("\"e2e4\""));
}

#[test]
fn the_bytes_of_a_body_are_answered() {
    let mut searcher = Searcher::new(1);
    let stop = Arc::new(AtomicBool::new(false));
    let mut answer = |b: &[u8]| answer_body(&b.to_vec(), &mut searcher, &stop);
    assert_eq!(
        answer(b"moves=e2e5").unwrap(),
        "{\"ok\":false,\"error\":\"illegal move 'e2e5' at ply 1\"}"
    );
    assert_eq!(
        answer(b"moves=\xFF").unwrap(),
        "{\"ok\":false,\"error\":\"illegal move '\u{FFFD}' at ply 1\"}"
    );
    assert!(answer("moves=%a\u{e9}".as_bytes()).is_none());
    assert!(answer(b"moves=e2e4&engine=1&movetime=50").unwrap().contains("\"side\":\"white\""));
    // The search of the last answer was reported.
    assert!(searcher.take_reports()[0].starts_with("info depth 1 "));
}

#[test]
fn the_engine_replies_if_asked() {
    let mut searcher = Searcher::new(1);
    let stop = Arc::new(AtomicBool::new(false));
    let text = api_play("moves=e2e4&engine=1&movetime=50", &mut searcher, &stop);
    assert!(text.contains("\"side\":\"white\""));
    assert!(!text.contains("\"engineMove\":null"));
    let mut game = build_position(&vec!["e2e4".to_string()]).ok().unwrap();
    let m = mythos::Move::normal(mythos::Square::make(4, 6), mythos::Square::make(4, 4));
    let text = engine_answer(&mut game, m);
    assert!(text.contains("\"engineMove\":\"e7e5\""));
    assert_eq!(game.moves, ["e2e4", "e7e5"]);
}

#[test]
fn each_status_is_found() {
    let st = |fen: &str, keys: &[u64]| {
        status(&Position::from_fen(fen).unwrap(), &keys.to_vec())
    };
    assert_eq!(st("4k3/8/8/8/8/8/8/4K3 w - - 0 1", &[]), Status::Ongoing);
    assert_eq!(st("4k3/8/8/8/8/8/8/4K3 w - - 100 1", &[]), Status::Draw);
    let key = Position::startpos().key();
    let start = "rnbqkbnr/pppppppp/8/8/8/8/PPPPPPPP/RNBQKBNR w KQkq - 0 1";
    assert_eq!(st(start, &[key, key]), Status::Ongoing);
    assert_eq!(st(start, &[key, key, key]), Status::Draw);
    assert_eq!(st("k7/8/1Q6/2K5/8/8/8/8 b - - 0 1", &[]), Status::Stalemate);
    assert_eq!(st("R5k1/5ppp/8/8/8/8/8/4K3 b - - 0 1", &[]), Status::Checkmate);
    assert_eq!(Status::Stalemate.text(), "stalemate");
    let pos = Position::startpos();
    assert!(board_string(&pos).starts_with("RNBQKBNRPPPPPPPP................"));
    assert!(format_state(&pos, &vec![key], &None).starts_with("{\"ok\":true"));
}

#[test]
fn requests_are_routed() {
    assert_eq!(route("GET / HTTP/1.1\r\n"), Route::Page);
    assert_eq!(route("GET /favicon.ico HTTP/1.1"), Route::Icon);
    assert_eq!(route("POST /api/play HTTP/1.1"), Route::Play);
    assert_eq!(route("GET /api/play HTTP/1.1"), Route::Unknown);
    assert_eq!(route("GET"), Route::Unknown);
    assert_eq!(route(""), Route::Unknown);
    assert_eq!(Route::Unknown.status(), "404 Not Found");
    assert_eq!(Route::Play.content_type(), "application/json");
    assert_eq!(
        format_head(Route::Icon, 0),
        "HTTP/1.1 204 No Content\r\nContent-Type: text/plain\r\nContent-Length: 0\r\nConnection: close\r\n\r\n"
    );
}

#[test]
fn the_length_of_a_body_is_read() {
    assert_eq!(content_length("Content-Length: 42\r\n"), Some(42));
    assert_eq!(content_length("CONTENT-LENGTH:7"), Some(7));
    assert_eq!(content_length("Content-Length: many"), Some(0));
    assert_eq!(content_length("Host: here"), None);
}
