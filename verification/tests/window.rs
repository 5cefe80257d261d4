use zsync::error::Error;
use zsync::rcksum::data_window::DataWindow;

fn sample() -> Vec<u8> {
    (0..50u8).collect()
}

#[test]
fn window_starts_at_the_front() {
    let data: Vec<u8> = sample();
    let w: DataWindow = DataWindow::new(16, 34, &data);
    assert_eq!(w.position(), 0);
    assert_eq!(w.get_remainder(), 34);
    assert!(!w.is_at_limit());
    assert_eq!(w.get_cur_block(), &data[0..16]);
}

#[test]
fn window_advances_by_bytes_and_blocks() {
    let data: Vec<u8> = sample();
    let mut w: DataWindow = DataWindow::new(16, 34, &data);
    assert_eq!(w.advance_byte(), Ok(()));
    assert_eq!(w.position(), 1);
    assert_eq!(w.get_cur_block(), &data[1..17]);
    assert_eq!(w.advance_n_blocks(2), Ok(()));
    assert_eq!(w.position(), 33);
    assert_eq!(w.get_remainder(), 1);
    assert_eq!(w.advance_n_bytes(1), Ok(()));
    assert_eq!(w.position(), 34);
    assert!(w.is_at_limit());
    assert_eq!(w.get_remainder(), 0);
    assert_eq!(w.get_cur_block(), &data[34..50]);
}

#[test]
fn window_refuses_to_pass_its_limit() {
    let data: Vec<u8> = sample();
    let mut w: DataWindow = DataWindow::new(16, 34, &data);
    assert_eq!(w.advance_n_bytes(34), Ok(()));
    assert_eq!(
        w.advance_byte(),
        Err(Error::DataOutOfBounds { position: 35, limit: 34 })
    );
    assert_eq!(w.position(), 34);
    assert_eq!(
        w.advance_n_blocks(1),
        Err(Error::DataOutOfBounds { position: 50, limit: 34 })
    );
    assert_eq!(
        w.advance_n_bytes(7),
        Err(Error::DataOutOfBounds { position: 41, limit: 34 })
    );
    assert_eq!(w.position(), 34);
    assert_eq!(w.advance_n_blocks(0), Ok(()));
    assert_eq!(w.advance_n_bytes(0), Ok(()));
    assert_eq!(w.position(), 34);
}

#[test]
fn window_failed_advance_leaves_cursor() {
    let data: Vec<u8> = sample();
    let mut w: DataWindow = DataWindow::new(16, 34, &data);
    assert_eq!(w.advance_n_bytes(10), Ok(()));
    assert_eq!(
        w.advance_n_blocks(2),
        Err(Error::DataOutOfBounds { position: 42, limit: 34 })
    );
    assert_eq!(w.position(), 10);
    assert_eq!(w.get_remainder(), 24);
}

#[test]
fn window_saturates_reported_position() {
    let data: Vec<u8> = sample();
    let mut w: DataWindow = DataWindow::new(16, 34, &data);
    assert_eq!(w.advance_byte(), Ok(()));
    assert_eq!(
        w.advance_n_bytes(usize::MAX),
        Err(Error::DataOutOfBounds { position: usize::MAX, limit: 34 })
    );
    assert_eq!(
        w.advance_n_blocks(usize::MAX),
        Err(Error::DataOutOfBounds { position: usize::MAX, limit: 34 })
    );
    assert!(matches!(
        w.get_nth_block(usize::MAX),
        Err(Error::DataOutOfBounds { position: usize::MAX, limit: 34 })
    ));
    assert_eq!(w.position(), 1);
}

#[test]
fn window_reads_blocks_ahead() {
    let data: Vec<u8> = sample();
    let mut w: DataWindow = DataWindow::new(16, 34, &data);
    assert_eq!(w.get_nth_block(0), Ok(&data[0..16]));
    assert_eq!(w.get_nth_block(1), Ok(&data[16..32]));
    assert_eq!(
        w.get_nth_block(2),
        Err(Error::DataOutOfBounds { position: 48, limit: 34 })
    );
    assert_eq!(w.advance_n_bytes(2), Ok(()));
    assert_eq!(w.get_nth_block(1), Ok(&data[18..34]));
    assert_eq!(w.advance_byte(), Ok(()));
    assert_eq!(
        w.get_nth_block(1),
        Err(Error::DataOutOfBounds { position: 35, limit: 34 })
    );
    assert_eq!(w.get_nth_block(0), Ok(&data[3..19]));
}

#[test]
fn window_with_no_room_to_move() {
    let data: Vec<u8> = vec![5; 16];
    let mut w: DataWindow = DataWindow::new(16, 0, &data);
    assert!(w.is_at_limit());
    assert_eq!(w.get_cur_block(), &data[..]);
    assert_eq!(
        w.advance_byte(),
        Err(Error::DataOutOfBounds { position: 1, limit: 0 })
    );
}
