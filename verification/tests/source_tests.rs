use cdc_sentinel::source::{CoreSource, FsSource, MemSource, SourceFile};

#[test]
fn classifies_extensions() {
    assert!(SourceFile::new("a/core_constraints.sdc", "").is_sdc());
    assert!(SourceFile::new("rtl/core_pll.v", "").is_rtl());
    assert!(SourceFile::new("rtl/top.sv", "").is_rtl());
    assert!(!SourceFile::new("readme.md", "").is_rtl());
    assert!(!SourceFile::new("readme.md", "").is_sdc());
}

#[test]
fn mem_source_round_trips() {
    let s = MemSource::new()
        .with("a.sdc", "set_clock_groups -asynchronous")
        .with("b.v", "module core_pll(); endmodule");
    let files = s.files();
    assert_eq!(files.len(), 2);
    assert_eq!(files[0].path, "a.sdc");
    assert!(files[0].is_sdc());
    assert!(files[1].is_rtl());
}

#[test]
fn extension_follows_path_rules() {
    assert_eq!(SourceFile::new("rtl/TOP.SV", "").ext(), "sv");
    assert_eq!(SourceFile::new("a/.sdc", "").ext(), "");
    assert_eq!(SourceFile::new("a/b.sdc/", "").ext(), "sdc");
    assert_eq!(SourceFile::new("a/b.sdc/.", "").ext(), "sdc");
    assert_eq!(SourceFile::new("a/b.sdc/..", "").ext(), "");
    assert_eq!(SourceFile::new("noext", "").ext(), "");
    assert_eq!(SourceFile::new("x.tar.GZ", "").ext(), "gz");
    assert!(SourceFile::new("rtl/inc.svh", "").is_rtl());
    assert!(SourceFile::new("rtl/inc.VH", "").is_rtl());
    assert!(!SourceFile::new("rtl/core.vhd", "").is_rtl());
}

#[test]
fn fs_source_sorts_by_path_and_skips_dirs() {
    let files = vec![
        SourceFile::new("rtl/b.v", "b"),
        SourceFile::new("a.sdc", "a"),
        SourceFile::new("rtl/a.v", "x"),
    ];
    let s = FsSource::from_walk("/cores/demo", files);
    let got: Vec<String> = s.files().into_iter().map(|f| f.path).collect();
    assert_eq!(got, vec!["a.sdc", "rtl/a.v", "rtl/b.v"]);
    assert_eq!(s.root(), "/cores/demo");
    assert!(!FsSource::descends_into("target"));
    assert!(!FsSource::descends_into(".git"));
    assert!(FsSource::descends_into("rtl"));
}
