//! Conversion tasks: one input file and the path of its converted file.

use vstd::prelude::*;
use crate::path::{file_name, mapped_path, name_of, output_path, parent_dir, parent_of};

verus! {

/// One file to convert and where its conversion is written.
#[derive(Debug, Clone, PartialEq, Eq)]
pub struct ConversionTask {
    pub input: String,
    pub output: String,
}

impl ConversionTask {
    /// The task is the one planned for the file `file` under the given roots.
    pub open spec fn is_planned_for(
        &self,
        file: Seq<char>,
        root_in: Seq<char>,
        root_out: Seq<char>,
    ) -> bool {
        &&& self.input@ == file
        &&& self.output@ == mapped_path(file, root_in, root_out)
    }

    /// The task for the input file `file`.
    pub fn new(file: &str, root_in: &str, root_out: &str) -> (task: Self)
        ensures
            task.is_planned_for(file@, root_in@, root_out@),
    {
        ConversionTask { input: file.to_owned(), output: output_path(file, root_in, root_out) }
    }

    /// The directory that has to exist before the transcoder writes the
    /// output; none where the output path is empty or is the root directory.
    pub fn output_directory(&self) -> (dir: Option<String>)
        ensures
            match dir {
                Some(d) => parent_of(self.output@) == Some(d@),
                None => parent_of(self.output@) is None,
            },
    {
        parent_dir(self.output.as_str())
    }

    /// The arguments with which the transcoder is run for the task: `-i`, the
    /// input path, the output path, and the flag that keeps the transcoder
    /// from reading the terminal.
    pub fn transcoder_arguments(&self) -> (args: Vec<String>)
        ensures
            args.len() == 4,
            args[0]@ == "-i"@,
            args[1]@ == self.input@,
            args[2]@ == self.output@,
            args[3]@ == "-nostdin"@,
    {
        let mut args: Vec<String> = Vec::new();
        args.push("-i".to_owned());
        args.push(self.input.clone());
        args.push(self.output.clone());
        args.push("-nostdin".to_owned());
        args
    }

    /// The name under which the task is reported: the last component of the
    /// output path.
    pub fn output_name(&self) -> (name: String)
        ensures
            name@ == name_of(self.output@),
    {
        file_name(self.output.as_str())
    }
}

/// One task for each file, in the order of `files`.
pub fn plan_tasks(root_in: &str, root_out: &str, files: &[String]) -> (tasks: Vec<ConversionTask>)
    ensures
        tasks.len() == files.len(),
        forall|i: int|
            0 <= i < files.len() ==> (#[trigger] tasks[i]).is_planned_for(
                files[i]@,
                root_in@,
                root_out@,
            ),
{
    let mut tasks: Vec<ConversionTask> = Vec::new();
    let mut i: usize = 0;
    while i < files.len()
        invariant
            i <= files.len(),
            tasks.len() == i,
            forall|j: int|
                0 <= j < i ==> (#[trigger] tasks[j]).is_planned_for(
                    files[j]@,
                    root_in@,
                    root_out@,
                ),
        decreases files.len() - i,
    {
        tasks.push(ConversionTask::new(files[i].as_str(), root_in, root_out));
        i += 1;
    }
    tasks
}

} // verus!
