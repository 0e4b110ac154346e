//! How logs are stored: each in a file of its own, which is replaced as a whole.

use vstd::prelude::*;

use crate::daily_log::{loaded, LogView};
use crate::paths::{
    app_log_path, app_log_temporary_path, log_path, log_paths_differ, temporary_path,
    temporary_path_is_another,
};

verus! {

/// A change to the files.
pub enum FileStep {
    /// The file gets this text.
    Write { path: String, text: String },
    /// The file takes the place of another one.
    Rename { from: String, to: String },
}

/// A change to the files, with its texts.
#[verifier::ext_equal]
pub enum FileStepView {
    Write { path: Seq<char>, text: Seq<char> },
    Rename { from: Seq<char>, to: Seq<char> },
}

impl View for FileStep {
    type V = FileStepView;

    open spec fn view(&self) -> FileStepView {
        match self {
            FileStep::Write { path, text } => FileStepView::Write { path: path@, text: text@ },
            FileStep::Rename { from, to } => FileStepView::Rename { from: from@, to: to@ },
        }
    }
}

/// Changes to the files, with their texts.
pub open spec fn step_views(steps: Seq<FileStep>) -> Seq<FileStepView> {
    Seq::new(steps.len(), |i: int| steps[i]@)
}

/// The texts of the files, by path, after a change.
pub open spec fn after_step(files: Map<Seq<char>, Seq<char>>, step: FileStepView) -> Map<
    Seq<char>,
    Seq<char>,
> {
    match step {
        FileStepView::Write { path, text } => files.insert(path, text),
        FileStepView::Rename { from, to } => if files.contains_key(from) {
            files.remove(from).insert(to, files[from])
        } else {
            files
        },
    }
}

/// The texts of the files, by path, after several changes.
pub open spec fn after_steps(files: Map<Seq<char>, Seq<char>>, steps: Seq<FileStepView>) -> Map<
    Seq<char>,
    Seq<char>,
>
    decreases steps.len(),
{
    if steps.len() == 0 {
        files
    } else {
        after_step(after_steps(files, steps.drop_last()), steps.last())
    }
}

/// How the text of a day's log is stored: it is written to another file first,
/// which then takes the place of the log.
pub open spec fn save_plan(base: Seq<char>, date: Seq<char>, text: Seq<char>) -> Seq<
    FileStepView,
> {
    seq![
        FileStepView::Write { path: temporary_path(base, date), text },
        FileStepView::Rename { from: temporary_path(base, date), to: log_path(base, date) },
    ]
}

/// What is stored of a day's log, if there is anything.
pub open spec fn stored_text(
    files: Map<Seq<char>, Seq<char>>,
    base: Seq<char>,
    date: Seq<char>,
) -> Option<Seq<char>> {
    if files.contains_key(log_path(base, date)) {
        Some(files[log_path(base, date)])
    } else {
        None
    }
}

/// What is stored of a day's log, as `parse` reads it.
pub open spec fn stored_log(
    files: Map<Seq<char>, Seq<char>>,
    base: Seq<char>,
    date: Seq<char>,
    parse: spec_fn(Seq<char>) -> Option<LogView>,
) -> Option<LogView> {
    match stored_text(files, base, date) {
        Some(text) => parse(text),
        None => None,
    }
}

/// After the log of a day was stored, its text is found under that day, what is
/// stored of any other day is what it was, and the file that was written first
/// is gone.
pub proof fn stored_texts_are_found(
    files: Map<Seq<char>, Seq<char>>,
    base: Seq<char>,
    date: Seq<char>,
    text: Seq<char>,
    other: Seq<char>,
)
    requires
        other != date,
    ensures
        ({
            let after = after_steps(files, save_plan(base, date, text));
            &&& stored_text(after, base, date) == Some(text)
            &&& stored_text(after, base, other) == stored_text(files, base, other)
            &&& !after.contains_key(temporary_path(base, date))
        }),
{
    let plan = save_plan(base, date, text);
    let t = temporary_path(base, date);
    let written = files.insert(t, text);
    assert(plan.drop_last() =~= seq![plan[0]]);
    assert(plan.drop_last().drop_last() =~= Seq::<FileStepView>::empty());
    assert(after_steps(files, plan.drop_last().drop_last()) == files);
    assert(after_steps(files, plan.drop_last()) == written);
    assert(after_steps(files, plan) == written.remove(t).insert(log_path(base, date), text));
    temporary_path_is_another(base, date, other);
    if log_path(base, date) == log_path(base, other) {
        log_paths_differ(base, date, other);
    }
}

/// While a log is being stored, and if that breaks off before the new file
/// takes the place of the log, what is stored of every day is what it was,
/// whatever was written up to then.
pub proof fn unfinished_storing_changes_no_log(
    files: Map<Seq<char>, Seq<char>>,
    base: Seq<char>,
    date: Seq<char>,
    written: Seq<char>,
    any_date: Seq<char>,
)
    ensures
        stored_text(after_step(files, save_plan(base, date, written)[0]), base, any_date)
            == stored_text(files, base, any_date),
{
    temporary_path_is_another(base, date, any_date);
}

/// A log that was stored is loaded as it was, in every field, provided that the
/// text it was written as reads as that log.
pub proof fn stored_logs_are_loaded(
    files: Map<Seq<char>, Seq<char>>,
    base: Seq<char>,
    log: LogView,
    text: Seq<char>,
    parse: spec_fn(Seq<char>) -> Option<LogView>,
    known: Option<Seq<char>>,
)
    requires
        parse(text) == Some(log),
    ensures
        loaded(
            stored_log(
                after_steps(files, save_plan(base, log.date, text)),
                base,
                log.date,
                parse,
            ),
            log.date,
            known,
        ) == log,
{
    let other = log.date.push('x');
    assert(other.len() != log.date.len());
    stored_texts_are_found(files, base, log.date, text, other);
}

/// How the text of the log of the day `date` is stored. Each step is made only
/// if the one before it has succeeded.
pub fn save_steps(base: &str, date: &str, text: String) -> (r: Vec<FileStep>)
    ensures
        step_views(r@) == save_plan(base@, date@, text@),
{
    let mut r: Vec<FileStep> = Vec::new();
    let path = app_log_temporary_path(base, date);
    let from = app_log_temporary_path(base, date);
    let to = app_log_path(base, date);
    let ghost plan = save_plan(base@, date@, text@);
    r.push(FileStep::Write { path, text });
    r.push(FileStep::Rename { from, to });
    assert(step_views(r@) =~= plan);
    r
}

} // verus!
