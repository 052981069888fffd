use bitleech::error::Error;
use bitleech::pieces::file_manager::{join_path, FileManager, OutputFile, WriteOp};
use bitleech::torrent::{File, Info};

fn layout_of(lengths: &[usize]) -> FileManager {
    let mut files = Vec::new();
    let mut start = 0;
    for (i, length) in lengths.iter().enumerate() {
        files.push(OutputFile { path: format!("out{}", i), start, length: *length });
        start += *length;
    }
    FileManager { files, total_length: start }
}

fn op(file_index: usize, file_offset: usize, data_start: usize, len: usize) -> WriteOp {
    WriteOp { file_index, file_offset, data_start, len }
}

#[test]
fn join_path_puts_slashes_between_components() {
    assert_eq!(join_path(&vec![]), "");
    assert_eq!(join_path(&vec![String::from("a")]), "a");
    assert_eq!(join_path(&vec![String::from("a"), String::from("b"), String::from("c.txt")]), "a/b/c.txt");
    assert_eq!(join_path(&vec![String::from(""), String::from("x")]), "/x");
}

#[test]
fn layout_of_a_single_file_torrent() {
    let info = Info {
        name: String::from("movie.mkv"),
        piece_length: 16384,
        pieces: vec![0u8; 40],
        length: Some(20000),
        files: None,
    };
    let fm = FileManager::new(&info).unwrap();
    assert_eq!(fm.total_length, 20000);
    assert_eq!(fm.files.len(), 1);
    assert_eq!(fm.files[0].path, "movie.mkv");
    assert_eq!(fm.files[0].start, 0);
    assert_eq!(fm.files[0].length, 20000);
}

#[test]
fn layout_of_a_multi_file_torrent() {
    let info = Info {
        name: String::from("album"),
        piece_length: 16384,
        pieces: vec![0u8; 40],
        length: None,
        files: Some(vec![
            File { length: 100, path: vec![String::from("album"), String::from("a.flac")] },
            File { length: 0, path: vec![String::from("album"), String::from("empty")] },
            File { length: 19900, path: vec![String::from("album"), String::from("cd2"), String::from("b.flac")] },
        ]),
    };
    let fm = FileManager::new(&info).unwrap();
    assert_eq!(fm.total_length, 20000);
    assert_eq!(fm.files.len(), 3);
    assert_eq!(fm.files[0].path, "album/a.flac");
    assert_eq!((fm.files[0].start, fm.files[0].length), (0, 100));
    assert_eq!(fm.files[1].path, "album/empty");
    assert_eq!((fm.files[1].start, fm.files[1].length), (100, 0));
    assert_eq!(fm.files[2].path, "album/cd2/b.flac");
    assert_eq!((fm.files[2].start, fm.files[2].length), (100, 19900));
}

#[test]
fn layout_fails_where_the_total_overflows() {
    let info = Info {
        name: String::from("big"),
        piece_length: 16384,
        pieces: vec![],
        length: None,
        files: Some(vec![
            File { length: usize::MAX, path: vec![String::from("a")] },
            File { length: 1, path: vec![String::from("b")] },
        ]),
    };
    assert_eq!(FileManager::new(&info).err(), Some(Error::MetainfoInvalid));
}

#[test]
fn piece_inside_one_file_is_one_write() {
    let fm = layout_of(&[20000]);
    let data = vec![0u8; 3616];
    assert_eq!(fm.write_piece(1, &data, 16384).unwrap(), vec![op(0, 16384, 0, 3616)]);
    let data = vec![0u8; 16384];
    assert_eq!(fm.write_piece(0, &data, 16384).unwrap(), vec![op(0, 0, 0, 16384)]);
}

#[test]
fn piece_across_files_is_split_at_the_boundaries() {
    let fm = layout_of(&[10, 0, 5, 100, 7]);
    let data = vec![0u8; 110];
    assert_eq!(
        fm.write_piece(1, &data, 8).unwrap(),
        vec![op(0, 8, 0, 2), op(2, 0, 2, 5), op(3, 0, 7, 100), op(4, 0, 107, 3)]
    );
}

#[test]
fn piece_that_starts_on_a_boundary_skips_the_files_before() {
    let fm = layout_of(&[10, 10, 10]);
    let data = vec![0u8; 10];
    assert_eq!(fm.write_piece(1, &data, 10).unwrap(), vec![op(1, 0, 0, 10)]);
    assert_eq!(fm.write_piece(2, &data, 10).unwrap(), vec![op(2, 0, 0, 10)]);
}

#[test]
fn bytes_past_the_last_file_are_left_out() {
    let fm = layout_of(&[10, 10]);
    let data = vec![0u8; 10];
    assert_eq!(fm.write_piece(1, &data, 15).unwrap(), vec![op(1, 5, 0, 5)]);
    assert_eq!(fm.write_piece(2, &data, 10).unwrap(), vec![]);
    assert_eq!(fm.write_piece(9, &data, 10).unwrap(), vec![]);
}

#[test]
fn empty_piece_needs_no_write() {
    let fm = layout_of(&[10, 10]);
    assert_eq!(fm.write_piece(0, &[], 10).unwrap(), vec![]);
    assert_eq!(layout_of(&[]).write_piece(0, &[1, 2, 3], 10).unwrap(), vec![]);
}

#[test]
fn write_piece_fails_where_the_offset_overflows() {
    let fm = layout_of(&[10]);
    assert_eq!(fm.write_piece(usize::MAX, &[1], 2).err(), Some(Error::DiskWriteFailed));
    assert_eq!(fm.write_piece(usize::MAX, &[1], 1).unwrap(), vec![]);
}
