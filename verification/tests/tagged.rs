use effectful::tagged::{TagHandler, TaggedError};

#[derive(Debug, Clone)]
enum AppError {
    Validation,
    Network,
}

impl TaggedError for AppError {
    fn tag(&self) -> &'static str {
        match self {
            AppError::Validation => "validation",
            AppError::Network => "network",
        }
    }
}

#[test]
fn handler_is_chosen_by_the_error_tag() {
    let table = TagHandler::new().on("validation", 1u32).on("network", 2u32);
    assert_eq!(table.take_handler(AppError::Network.tag()), Some(2));
    let table = TagHandler::new().on("validation", 1u32).on("network", 2u32);
    assert_eq!(table.take_handler(AppError::Validation.tag()), Some(1));
}

#[test]
fn unknown_tag_has_no_handler() {
    let table = TagHandler::new().on("validation", 1u32);
    assert_eq!(table.take_handler("timeout"), None);
    let empty: TagHandler<u32> = TagHandler::new();
    assert_eq!(empty.take_handler("validation"), None);
}

#[test]
fn earlier_registration_wins() {
    let table = TagHandler::new().on("network", 1u32).on("network", 2u32);
    assert_eq!(table.take_handler("network"), Some(1));
}
