//! The push-pull surface of the extractor, the event ranges, and the
//! command-line option parsing.

use js_semantic::binding::Reference;
use js_semantic::cli::{CliOptions, ColorsArg, LoggingKind, LoggingLevel};
use js_semantic::events::SemanticEvent;
use js_semantic::extractor::SemanticEventExtractor;
use js_semantic::syntax::{NameToken, NodeInfo, NodeKind, TextRange};

fn r2(start: u32, end: u32) -> TextRange {
    TextRange { start, end }
}

/// Events stashed by one `enter` drain through `pop` in FIFO order, and
/// `pop` on an empty queue returns `None`.
#[test]
fn push_pull_fifo() {
    let mut extractor = SemanticEventExtractor::new();
    assert_eq!(extractor.pop(), None);
    let script = NodeInfo { kind: NodeKind::Script, range: r2(0, 10) };
    extractor.enter(&script);
    assert_eq!(
        extractor.pop(),
        Some(SemanticEvent::ScopeStarted {
            range: r2(0, 10),
            scope_id: 0,
            parent_scope_id: None,
            is_closure: false,
        }),
    );
    assert_eq!(extractor.pop(), None);
    extractor.leave(&script);
    assert_eq!(
        extractor.pop(),
        Some(SemanticEvent::ScopeEnded { range: r2(0, 10), scope_id: 0 }),
    );
    assert_eq!(extractor.pop(), None);
}

/// `range` returns the event's own range, and the token range for a
/// declaration.
#[test]
fn event_ranges() {
    let declaration = SemanticEvent::DeclarationFound {
        name_token: NameToken { sym: 3, range: r2(4, 5) },
        scope_id: 0,
        hoisted_scope_id: None,
    };
    assert_eq!(declaration.range(), r2(4, 5));
    let read = SemanticEvent::Read { range: r2(7, 8), declared_at: r2(4, 5), scope_id: 0 };
    assert_eq!(read.range(), r2(7, 8));
    let unresolved = SemanticEvent::UnresolvedReference { is_read: true, range: r2(1, 2) };
    assert_eq!(unresolved.range(), r2(1, 2));
    let exported = SemanticEvent::Exported { range: r2(9, 12) };
    assert_eq!(exported.range(), r2(9, 12));
}

/// A reference knows its range, whether it writes, and whether it exports.
#[test]
fn reference_predicates() {
    let read = Reference::Read(r2(1, 2));
    let write = Reference::Write(r2(3, 4));
    let export = Reference::Export(r2(5, 6));
    let export_type = Reference::ExportType(r2(7, 8));
    assert!(!read.is_write() && !read.is_export());
    assert!(write.is_write() && !write.is_export());
    assert!(!export.is_write() && export.is_export());
    assert!(!export_type.is_write() && export_type.is_export());
    assert_eq!(read.range(), r2(1, 2));
    assert_eq!(export_type.range(), r2(7, 8));
}

/// `--colors` accepts exactly `off` and `force`.
#[test]
fn colors_arg_parsing() {
    assert!(matches!(ColorsArg::parse("off"), Ok(ColorsArg::Off)));
    assert!(matches!(ColorsArg::parse("force"), Ok(ColorsArg::Force)));
    assert!(ColorsArg::parse("auto").is_err());
    assert!(ColorsArg::parse("").is_err());
    let message = ColorsArg::parse("blue").unwrap_err();
    assert!(message.contains("blue"));
    assert!(matches!("off".parse::<ColorsArg>(), Ok(ColorsArg::Off)));
}

/// The defaults of the global options.
#[test]
fn cli_options_defaults() {
    let options = CliOptions::default();
    assert!(options.colors.is_none());
    assert!(!options.use_server);
    assert!(!options.verbose);
    assert!(options.config_path.is_none());
    assert_eq!(options.max_diagnostics, 20);
    assert!(!options.skip_errors);
    assert!(!options.no_errors_on_unmatched);
    assert!(!options.error_on_warnings);
    assert!(!options.json);
    assert_eq!(options.log_level, LoggingLevel::Off);
    assert_eq!(options.log_kind, LoggingKind::Pretty);
}
