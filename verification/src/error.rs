//! The errors that loading and drawing a model can end in.

use vstd::prelude::*;

use crate::text::{decimal, push_decimal, push_str};

verus! {

/// Everything that can go wrong, from the command line to the GPU.
#[derive(Debug)]
pub enum AppError {
    /// The windowing library failed.
    Glfw(String),
    /// A file could not be read: its path and what the system reported.
    Io { path: String, source: String },
    /// A malformed OBJ model; line 0 stands for the model as a whole.
    Obj { line: usize, message: String },
    /// A malformed MTL material library.
    Mtl { line: usize, message: String },
    /// The graphics driver refused something.
    OpenGl(String),
    /// A malformed PPM image.
    Ppm(String),
    /// The program was called the wrong way.
    Usage(String),
}

/// The text that reports `error` to the user.
pub open spec fn error_text(error: AppError) -> Seq<char> {
    match error {
        AppError::Glfw(message) => "GLFW error: "@ + message@,
        AppError::Io { path, source } => path@ + ": "@ + source@,
        AppError::Obj { line, message } => "invalid OBJ at line "@ + decimal(line as nat) + ": "@
            + message@,
        AppError::Mtl { line, message } => "invalid MTL at line "@ + decimal(line as nat) + ": "@
            + message@,
        AppError::OpenGl(message) => "OpenGL error: "@ + message@,
        AppError::Ppm(message) => "invalid PPM: "@ + message@,
        AppError::Usage(message) => message@,
    }
}

impl AppError {
    /// The text that reports this error to the user.
    pub fn message(&self) -> (text: String)
        ensures
            text@ == error_text(*self),
    {
        let mut text = String::new();
        match self {
            AppError::Glfw(message) => {
                push_str(&mut text, "GLFW error: ");
                push_str(&mut text, message.as_str());
            },
            AppError::Io { path, source } => {
                push_str(&mut text, path.as_str());
                push_str(&mut text, ": ");
                push_str(&mut text, source.as_str());
            },
            AppError::Obj { line, message } => {
                push_str(&mut text, "invalid OBJ at line ");
                push_decimal(&mut text, *line);
                push_str(&mut text, ": ");
                push_str(&mut text, message.as_str());
            },
            AppError::Mtl { line, message } => {
                push_str(&mut text, "invalid MTL at line ");
                push_decimal(&mut text, *line);
                push_str(&mut text, ": ");
                push_str(&mut text, message.as_str());
            },
            AppError::OpenGl(message) => {
                push_str(&mut text, "OpenGL error: ");
                push_str(&mut text, message.as_str());
            },
            AppError::Ppm(message) => {
                push_str(&mut text, "invalid PPM: ");
                push_str(&mut text, message.as_str());
            },
            AppError::Usage(message) => {
                push_str(&mut text, message.as_str());
            },
        }
        assert(text@ =~= error_text(*self));
        text
    }
}

} // verus!
