//! Shortening the output of commands: the options handed to the minimizer, and what is shown of
//! its outcome. The minimizer itself runs outside this library.

use crate::text::{chars_of, decimal, ends_with_char, last_is, push_decimal, strs};
use crate::types::{copy_opt_string, copy_strings, opt_strs, opt_text};
use vstd::prelude::*;

verus! {

/// The settings of the minimizer.
#[derive(Debug)]
pub struct MinimizerSettings {
    pub enabled: bool,
    pub settings_path: Option<String>,
    pub only: Vec<String>,
    pub except: Vec<String>,
    pub max_capture_bytes: usize,
    pub source_outline_level: String,
    pub legacy_filters: bool,
}

/// The options that a run of the minimizer is given.
#[derive(Debug)]
pub struct MinimizerOptions {
    pub enabled: Option<bool>,
    pub settings_path: Option<String>,
    pub settings_hash: Option<String>,
    pub only: Option<Vec<String>>,
    pub except: Option<Vec<String>>,
    pub max_capture_bytes: Option<usize>,
    pub source_outline_level: Option<String>,
    pub legacy_filters: bool,
}

/// A list of filters, or none where the list is empty.
fn named_filters(filters: &[String]) -> (r: Option<Vec<String>>)
    ensures
        opt_strs(r) == if filters@.len() == 0 {
            None
        } else {
            Some(strs(filters@))
        },
{
    if filters.len() == 0 {
        None
    } else {
        Some(copy_strings(filters))
    }
}

/// The options that follow from the settings. An empty list of filters is no list.
pub fn live_minimizer_options(settings: &MinimizerSettings) -> (r: MinimizerOptions)
    ensures
        r.enabled == Some(settings.enabled),
        opt_text(r.settings_path) == opt_text(settings.settings_path),
        r.settings_hash is None,
        opt_strs(r.only) == if settings.only@.len() == 0 {
            None
        } else {
            Some(strs(settings.only@))
        },
        opt_strs(r.except) == if settings.except@.len() == 0 {
            None
        } else {
            Some(strs(settings.except@))
        },
        r.max_capture_bytes == Some(settings.max_capture_bytes),
        opt_text(r.source_outline_level) == Some(settings.source_outline_level@),
        r.legacy_filters == settings.legacy_filters,
{
    MinimizerOptions {
        enabled: Some(settings.enabled),
        settings_path: copy_opt_string(&settings.settings_path),
        settings_hash: None,
        only: named_filters(settings.only.as_slice()),
        except: named_filters(settings.except.as_slice()),
        max_capture_bytes: Some(settings.max_capture_bytes),
        source_outline_level: Some(settings.source_outline_level.clone()),
        legacy_filters: settings.legacy_filters,
    }
}

/// The exit code that the minimizer is told.
pub fn told_exit_code(exit_code: Option<i32>) -> (r: i32)
    ensures
        r == match exit_code {
            Some(code) => code,
            None => 0,
        },
{
    match exit_code {
        Some(code) => code,
        None => 0,
    }
}

/// The outcome of a run of the minimizer.
#[derive(Debug)]
pub struct MinimizerResult {
    pub text: String,
    pub changed: bool,
    pub filter: String,
    pub input_bytes: usize,
    pub output_bytes: usize,
}

/// What is shown of an outcome: the shorter text, ended by a line feed, and a note on it.
pub open spec fn minimized(r: MinimizerResult) -> Seq<char> {
    (if ends_with_char(r.text@, '\n') {
        r.text@
    } else {
        r.text@.push('\n')
    }) + "[output minimized via "@ + r.filter@ + " : "@ + decimal(r.input_bytes as nat) + " -> "@
        + decimal(r.output_bytes as nat) + " bytes]"@
}

/// The output of a command after the minimizer, whose outcome is `None` where it is switched off.
pub fn minimize_with(output: String, result: Option<MinimizerResult>) -> (r: String)
    ensures
        r@ == match result {
            Some(m) => if m.changed {
                minimized(m)
            } else {
                output@
            },
            None => output@,
        },
{
    match result {
        Some(m) => {
            if !m.changed {
                return output;
            }
            let mut text = m.text.clone();
            if !last_is(chars_of(m.text.as_str()).as_slice(), '\n') {
                text.push('\n');
            }
            text.append("[output minimized via ");
            text.append(m.filter.as_str());
            text.append(" : ");
            push_decimal(&mut text, m.input_bytes);
            text.append(" -> ");
            push_decimal(&mut text, m.output_bytes);
            text.append(" bytes]");
            text
        },
        None => output,
    }
}

/// Output that was shortened ends in a line that says so, and begins with the shorter text.
pub proof fn law_minimized_output_is_marked(r: MinimizerResult)
    ensures
        r.text@.is_prefix_of(minimized(r)),
        ends_with_char(minimized(r), ']'),
{
    reveal_strlit(" bytes]");
    let note = " bytes]"@;
    assert(note[note.len() - 1] == ']');
    assert(r.text@ =~= minimized(r).take(r.text@.len() as int));
}

} // verus!
