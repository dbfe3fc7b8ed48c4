use audioserve::options::{CollectionOptions, OptionError};

#[test]
fn test_col_options() {
    let mut opt = CollectionOptions::default();
    opt.update_from_str_options("no-cache,force-cache-update=true,ignore-chapters-meta=false,allow-symlinks,no-dir-collaps=TRUE").expect("good options");
    assert!(opt.no_cache);
    assert!(opt.force_cache_update_on_init);
    assert!(!opt.ignore_chapters_meta);
    assert!(opt.allow_symlinks);
    assert!(opt.no_dir_collaps);

    opt.update_from_str_options("tags=title+album+composer")
        .expect("valid tags");
    assert_eq!(3, opt.tags.as_ref().unwrap().len());

    opt.update_from_str_options("chapters-duration=44,chapters-from-duration=200")
        .expect("correct options");
    assert_eq!(44, opt.chapters_duration);
    assert_eq!(200, opt.chapters_from_duration);
}

#[test]
fn options_errors() {
    let mut opt = CollectionOptions::default();
    assert_eq!(opt.update_from_str_options("nc=maybe"), Err(OptionError::InvalidBool));
    assert_eq!(opt.update_from_str_options("chapters-duration=x"), Err(OptionError::NotInteger));
    assert_eq!(opt.update_from_str_options("chapters-duration"), Err(OptionError::ValueRequired));
    assert_eq!(opt.update_from_str_options("chapters-duration=9"), Err(OptionError::ChapterTooShort));
    assert_eq!(opt.update_from_str_options("chapters-from-duration=5"), Err(OptionError::ChapterTooShort));
    assert_eq!(opt.update_from_str_options("tags=title+foo"), Err(OptionError::TagNotAllowed));
    assert_eq!(opt.update_from_str_options("tags"), Err(OptionError::TagsRequired));
    assert_eq!(opt.update_from_str_options("whatever"), Err(OptionError::UnknownOption));
    assert_eq!(opt.update_from_str_options(""), Err(OptionError::UnknownOption));
    assert!(!opt.no_cache);
    assert_eq!(opt.chapters_duration, 0);
}

#[test]
fn options_stop_at_first_error() {
    let mut opt = CollectionOptions::default();
    let r = opt.update_from_str_options("no-cache, allow-symlinks = false ,bad,no-dir-collaps");
    assert_eq!(r, Err(OptionError::UnknownOption));
    assert!(opt.no_cache);
    assert!(!opt.allow_symlinks);
    assert!(!opt.no_dir_collaps);
}

#[test]
fn options_tags() {
    let mut opt = CollectionOptions::default();
    opt.update_from_str_options("tags= Title + title +ALBUM").unwrap();
    assert_eq!(opt.tags.clone().unwrap(), vec!["title".to_string(), "album".to_string()]);
    opt.update_from_str_options("default-tags").unwrap();
    assert_eq!(opt.tags.as_ref().unwrap().len(), 7);
    opt.update_from_str_options("default-tags=false").unwrap();
    assert!(opt.tags.is_none());
    opt.update_from_str_options("chapters-from-duration=0").unwrap();
    assert_eq!(opt.chapters_from_duration, 0);
}
