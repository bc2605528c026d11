use space_game::controls::{Action, Controls, WindowEvent};
use space_game::gl::ShaderLoaderError;
use space_game::shader_loader::{LoadStep, ShaderLoader};
use space_game::shader_text::{classify_line, is_whitespace, split_lines_of, ShaderLine};
use std::collections::HashMap;

fn load(loader: &mut ShaderLoader, files: &HashMap<&str, &str>, path: &str) -> Result<(), ShaderLoaderError> {
    let mut step = loader.start_load(path);
    loop {
        match step {
            LoadStep::Done(r) => return r,
            LoadStep::Fetch(p) => {
                let text = files.get(p.as_str()).map(|t| t.to_string()).ok_or(());
                step = loader.resume_load(text);
            },
        }
    }
}

#[test]
fn lines_split_like_std() {
    for text in ["", "a", "a\n", "a\nb", "a\r\nb\r\n", "\n\n", "x\ry", "a\r", "  #include <b>\n"] {
        let expected: Vec<String> = text.lines().map(|l| l.to_string()).collect();
        assert_eq!(split_lines_of(text), expected, "text {:?}", text);
    }
}

#[test]
fn whitespace_like_std() {
    for c in ['\t', '\n', '\u{b}', '\u{c}', '\r', ' ', '\u{85}', '\u{a0}', '\u{1680}', '\u{2000}', '\u{200a}',
        '\u{2028}', '\u{2029}', '\u{202f}', '\u{205f}', '\u{3000}', 'a', '\u{200b}', '#', '\u{feff}']
    {
        assert_eq!(is_whitespace(c), c.is_whitespace(), "char {:?}", c);
    }
}

#[test]
fn lines_are_classified() {
    assert!(matches!(classify_line("#include <noise.glsl>"), ShaderLine::Include(n) if n == "noise.glsl"));
    assert!(matches!(classify_line("  #include \"a b\"  "), ShaderLine::Include(n) if n == "a b"));
    assert!(matches!(classify_line("#include<x>"), ShaderLine::Include(n) if n == "x"));
    assert!(matches!(classify_line("#include <x"), ShaderLine::BadInclude));
    assert!(matches!(classify_line("#include \""), ShaderLine::BadInclude));
    assert!(matches!(classify_line("#include x"), ShaderLine::BadInclude));
    assert!(matches!(classify_line("\t#version 300 es"), ShaderLine::Version));
    assert!(matches!(classify_line("void main() {}"), ShaderLine::Plain));
    assert!(matches!(classify_line("// #include <x>"), ShaderLine::Plain));
}

#[test]
fn loads_a_file_with_includes() {
    let mut files = HashMap::new();
    files.insert("main.glsl", "#version 300 es\nprecision highp float;\n#include <common.glsl>\nvoid main() {}\n");
    files.insert("common.glsl", "float x;\n#include \"util.glsl\"\nfloat y;");
    files.insert("util.glsl", "float u;\n");
    let mut loader = ShaderLoader::new();
    assert!(load(&mut loader, &files, "main.glsl").is_ok());
    assert_eq!(loader.get("util.glsl"), Some("float u;\n"));
    assert_eq!(loader.get("common.glsl"), Some("float x;\nfloat u;\n#line 2 1\nfloat y;\n"));
    assert_eq!(
        loader.get("main.glsl"),
        Some("#version 300 es\n#line 1 0\nprecision highp float;\nfloat x;\nfloat u;\n#line 2 1\nfloat y;\n#line 3 0\nvoid main() {}\n")
    );
    assert_eq!(loader.get_path(0), Some("main.glsl"));
    assert_eq!(loader.get_path(1), Some("common.glsl"));
    assert_eq!(loader.get_path(2), Some("util.glsl"));
    assert_eq!(loader.get_path(3), None);
    assert_eq!(loader.get("other.glsl"), None);
    // Loading again finds it in the cache.
    assert!(load(&mut loader, &files, "common.glsl").is_ok());
}

#[test]
fn reports_cycles_missing_files_and_bad_includes() {
    let mut files = HashMap::new();
    files.insert("a.glsl", "#include <b.glsl>\n");
    files.insert("b.glsl", "#include <a.glsl>\n");
    files.insert("bad.glsl", "x;\n#include b.glsl\n");
    files.insert("missing.glsl", "#include <nowhere.glsl>\n");
    let mut loader = ShaderLoader::new();
    assert!(matches!(load(&mut loader, &files, "a.glsl"), Err(ShaderLoaderError::IncludeCycle(p)) if p == "a.glsl"));
    // Files whose loading failed stay unfinished.
    assert!(matches!(load(&mut loader, &files, "a.glsl"), Err(ShaderLoaderError::IncludeCycle(p)) if p == "a.glsl"));
    assert!(matches!(load(&mut loader, &files, "bad.glsl"), Err(ShaderLoaderError::IncludeSyntaxError(p)) if p == "bad.glsl"));
    assert!(matches!(load(&mut loader, &files, "missing.glsl"), Err(ShaderLoaderError::RequestFailed(p)) if p == "nowhere.glsl"));
}

#[test]
fn cursor_grab_follows_the_events() {
    let mut c = Controls::new();
    assert_eq!(c.on_event(WindowEvent::MouseMotion), Action::Ignore);
    assert_eq!(c.on_event(WindowEvent::MousePressed), Action::GrabCursor);
    assert!(!c.grabbed);
    c.grab_result(false);
    assert!(!c.grabbed);
    assert_eq!(c.on_event(WindowEvent::MousePressed), Action::GrabCursor);
    c.grab_result(true);
    assert!(c.grabbed);
    assert_eq!(c.on_event(WindowEvent::MouseMotion), Action::Rotate);
    assert_eq!(c.on_event(WindowEvent::MousePressed), Action::Ignore);
    assert_eq!(c.on_event(WindowEvent::FocusLost), Action::ReleaseCursor);
    assert!(!c.grabbed);
    assert_eq!(c.on_event(WindowEvent::EscapePressed), Action::Ignore);
    assert_eq!(c.on_event(WindowEvent::RedrawRequested), Action::Draw);
    assert_eq!(c.on_event(WindowEvent::MainEventsCleared), Action::RequestRedraw);
    assert_eq!(c.on_event(WindowEvent::CloseRequested), Action::Exit);
    assert_eq!(c.on_event(WindowEvent::Other), Action::Ignore);
}
