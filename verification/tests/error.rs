use scop::error::AppError;

#[test]
fn messages_name_the_kind_of_error() {
    assert_eq!(AppError::Glfw("no display".into()).message(), "GLFW error: no display");
    assert_eq!(
        AppError::Io { path: "models/a.obj".into(), source: "No such file or directory (os error 2)".into() }.message(),
        "models/a.obj: No such file or directory (os error 2)"
    );
    assert_eq!(
        AppError::Obj { line: 120, message: "missing vertex z".into() }.message(),
        "invalid OBJ at line 120: missing vertex z"
    );
    assert_eq!(
        AppError::Mtl { line: 0, message: "x".into() }.message(),
        "invalid MTL at line 0: x"
    );
    assert_eq!(AppError::OpenGl("link".into()).message(), "OpenGL error: link");
    assert_eq!(AppError::Ppm("bad".into()).message(), "invalid PPM: bad");
    assert_eq!(AppError::Usage("usage: scop <model.obj>".into()).message(), "usage: scop <model.obj>");
}

#[test]
fn decimal_line_numbers() {
    assert_eq!(scop::text::decimal_string(0), "0");
    assert_eq!(scop::text::decimal_string(9), "9");
    assert_eq!(scop::text::decimal_string(10), "10");
    assert_eq!(scop::text::decimal_string(usize::MAX), usize::MAX.to_string());
}
