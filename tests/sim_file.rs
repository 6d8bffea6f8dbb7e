use actionkv::file::{close_with, open_with, File, FileState, Read};

#[test]
fn new_file_is_empty_and_closed() {
    let f = File::new("1.txt");
    assert_eq!(f.len(), 0);
    assert_eq!(f.name(), "1.txt");
    assert_eq!(f.state, FileState::Closed);
}

#[test]
fn read_appends_the_contents() {
    let f = File::new_with_data("2.txt", &[114, 117, 115, 116, 33]);
    let mut buffer: Vec<u8> = vec![1];
    assert_eq!(f.read(&mut buffer), Ok(5));
    assert_eq!(buffer, vec![1, 114, 117, 115, 116, 33]);
    assert_eq!(f.len(), 5);
}

#[test]
fn open_and_close_change_the_state() {
    let f = File::new_with_data("f3.txt", b"abc");
    let f = open_with(f, false).unwrap();
    assert_eq!(f.state, FileState::Open);
    assert_eq!(f.state.label(), "OPEN");
    let f = close_with(f, false).unwrap();
    assert_eq!(f.state, FileState::Closed);
    assert_eq!(f.state.label(), "CLOSED");
    assert_eq!(f.name(), "f3.txt");
    assert_eq!(f.len(), 3);
}

#[test]
fn refused_open_and_interrupted_close() {
    assert_eq!(open_with(File::new("x"), true).unwrap_err(), "Permission denied");
    assert_eq!(close_with(File::new("x"), true).unwrap_err(), "Interrupted by signal");
}

#[test]
fn random_open_keeps_name_and_data() {
    let f = File::new_with_data("r.txt", b"data");
    match actionkv::file::open(f) {
        Ok(g) => {
            assert_eq!(g.state, FileState::Open);
            assert_eq!(g.name(), "r.txt");
            assert_eq!(g.len(), 4);
        }
        Err(e) => assert_eq!(e, "Permission denied"),
    }
}
