use timberfs::fs::{
    file_attr, in_use_message, io_errno, list_xattrs, listing_from, lock_info,
    parse_rotate_request, read_at, resize_step, root_attr, rotated_note, statfs, write_step,
    xattr_reply, xattr_value, Errno, FaultKind, FileFacts, Inodes, Resize, RotateReq, XattrReply,
    ROOT_INO,
};
use timberfs::interest::RotateStats;

#[test]
fn a_rotation_has_a_time_and_either_a_target_or_a_deletion() {
    assert_eq!(
        parse_rotate_request("cutoff=5;target=old.log"),
        Some(RotateReq { cutoff_ms: 5, target: Some("old.log".into()) })
    );
    assert_eq!(
        parse_rotate_request("delete;cutoff=5;"),
        Some(RotateReq { cutoff_ms: 5, target: None })
    );
    for bad in [
        "",
        "cutoff=5",
        "cutoff=x;delete",
        "cutoff=5;cutoff=x;delete",
        "delete",
        "cutoff=5;delete;target=a",
        "cutoff=5;target=",
        "cutoff=5;target=a/b",
        "cutoff=5;delete;more",
    ] {
        assert_eq!(parse_rotate_request(bad), None, "{bad:?}");
    }
}

#[test]
fn files_are_append_only() {
    assert!(write_step(false, 10, 10).is_ok());
    assert_eq!(write_step(false, 9, 10), Err(Errno::NotPermitted));
    assert_eq!(write_step(false, -1, 10), Err(Errno::NotPermitted));
    assert!(write_step(true, 3, 10).is_ok(), "an append handle lands at the end");
    assert_eq!(resize_step(None, 5), Ok(Resize::Keep));
    assert_eq!(resize_step(Some(0), 5), Ok(Resize::Reset));
    assert_eq!(resize_step(Some(0), 0), Ok(Resize::Keep));
    assert_eq!(resize_step(Some(5), 5), Ok(Resize::Keep));
    assert_eq!(resize_step(Some(4), 5), Err(Errno::NotPermitted));
    assert_eq!(read_at(7), Ok(7));
    assert_eq!(read_at(-7), Err(Errno::Invalid));
}

#[test]
fn an_error_keeps_the_number_that_the_system_gave() {
    assert_eq!(io_errno(Some(28), FaultKind::NotFound), Errno::Os(28));
    assert_eq!(io_errno(None, FaultKind::NotFound), Errno::NotFound);
    assert_eq!(io_errno(None, FaultKind::InvalidInput), Errno::Invalid);
    assert_eq!(io_errno(None, FaultKind::InvalidData), Errno::Invalid);
    assert_eq!(io_errno(None, FaultKind::PermissionDenied), Errno::NotPermitted);
    assert_eq!(io_errno(None, FaultKind::Other), Errno::Io);
}

#[test]
fn a_file_shows_its_logical_size_and_its_real_blocks() {
    let a = file_attr(7, 1_000_000, 513, Some(44), 99);
    assert_eq!((a.ino, a.size, a.blocks, a.mtime_ms), (7, 1_000_000, 2, 44));
    assert_eq!((a.perm, a.nlink, a.directory), (0o644, 1, false));
    assert_eq!(file_attr(7, 0, 512, None, 99).blocks, 1);
    assert_eq!(file_attr(7, 0, 0, None, 99).mtime_ms, 99);
    assert_eq!(file_attr(7, 0, u64::MAX, None, 0).blocks, 1 << 55);
    let r = root_attr(5);
    assert_eq!((r.ino, r.perm, r.nlink, r.directory), (ROOT_INO, 0o755, 2, true));
    assert_eq!(statfs(3).files, 3);
}

#[test]
fn the_index_is_exposed_as_attributes() {
    let f = FileFacts {
        chunks: 3,
        comp_size: 99,
        first_write: Some("then".into()),
        last_write: None,
    };
    assert_eq!(xattr_value("user.timberfs.chunks", &f).as_deref(), Some("3"));
    assert_eq!(xattr_value("user.timberfs.compressed_size", &f).as_deref(), Some("99"));
    assert_eq!(xattr_value("user.timberfs.first_write", &f).as_deref(), Some("then"));
    assert_eq!(xattr_value("user.timberfs.last_write", &f), None);
    assert_eq!(xattr_value("user.other", &f), None);
    let names = list_xattrs(true);
    assert_eq!(names.iter().filter(|b| **b == 0).count(), 4);
    assert!(names.starts_with(b"user.timberfs.chunks\0user.timberfs.compressed_size\0"));
    assert!(list_xattrs(false).is_empty());
    assert_eq!(xattr_reply(10, 0), XattrReply::Size(10));
    assert_eq!(xattr_reply(10, 10), XattrReply::Data);
    assert_eq!(xattr_reply(10, 9), XattrReply::Range);
}

#[test]
fn a_file_keeps_its_number_when_it_is_renamed() {
    let mut t = Inodes::new();
    assert_eq!(t.assign_ino("b.log"), 2);
    assert_eq!(t.assign_ino("a.log"), 3);
    assert_eq!(t.assign_ino("b.log"), 2, "the one it has");
    t.rename("b.log", "a.log");
    assert_eq!(t.ino_of("a.log"), Some(2));
    assert_eq!(t.ino_of("b.log"), None);
    assert_eq!(t.name_of(3), None, "what had the name is gone");
    assert_eq!(t.name_of(2).as_deref(), Some("a.log"));
    t.remove("a.log");
    assert_eq!(t.count(), 0);
    assert_eq!(t.assign_ino("a.log"), 4, "a number is never given twice");
}

#[test]
fn a_listing_is_in_the_order_of_the_names() {
    let mut t = Inodes::new();
    for n in ["c.log", "a.log", "b.log"] {
        t.assign_ino(n);
    }
    let l = t.listing();
    let names: Vec<&str> = l.iter().map(|e| e.name.as_str()).collect();
    assert_eq!(names, [".", "..", "a.log", "b.log", "c.log"]);
    assert_eq!(l[2].ino, 3);
    assert!(l[0].directory && !l[2].directory);
    assert_eq!(listing_from(l.len(), 0), 0);
    assert_eq!(listing_from(l.len(), 3), 3);
    assert_eq!(listing_from(l.len(), 99), 5);
    assert_eq!(listing_from(l.len(), -1), 5);
}

#[test]
fn a_mount_says_who_is_in_its_way() {
    let none: Vec<String> = vec![];
    assert_eq!(
        in_use_message("/d", &none, Some("mountpoint=/m\npid=4\n")),
        "backing directory /d is already in use by another timberfs process (mountpoint=/m, pid=4)"
    );
    assert_eq!(
        in_use_message("/d", &none, None),
        "backing directory /d is already in use by another timberfs process"
    );
    let two = vec!["a.log".to_string(), "b.log".to_string()];
    assert_eq!(
        in_use_message("/d", &two, None),
        "backing directory /d has active appender(s) on: a.log, b.log — stop them before mounting"
    );
    assert_eq!(lock_info("/m", 4), "mountpoint=/m\npid=4\n");
    let stats = RotateStats {
        chunks_moved: 2,
        uncomp_bytes: 0,
        comp_bytes: 9,
        first_write_ms: 0,
        last_write_ms: 0,
        chunks_remaining: 0,
        first_seq: 0,
        last_seq: 1,
    };
    assert_eq!(
        rotated_note("a.log", &stats, Some("old")),
        "timberfs: a.log: rotated 2 chunk(s) (9 compressed bytes) into old"
    );
    assert_eq!(
        rotated_note("a.log", &stats, None),
        "timberfs: a.log: rotated 2 chunk(s) (9 compressed bytes) deleted"
    );
}
