//! The list of permanent projects, one per line of `projects.dat`.
use vstd::prelude::*;

use crate::repositories::{
    listed_projects, projects_file, FileProjectRepository, ProjectRepository,
};
use crate::text::string_views;

verus! {

/// The projects the `projects.dat` of `data_dir` holds, given its `content`
/// (empty when the file is missing): its non-empty lines.
pub fn load(data_dir: &str, content: &str) -> (r: Vec<String>)
    ensures
        string_views(r@) == listed_projects(content@),
{
    FileProjectRepository::new(data_dir).load(content)
}

/// What the `projects.dat` of `data_dir` is to hold for `projects`: one per
/// line, each ended by a line feed.
pub fn save(data_dir: &str, projects: &[String]) -> (r: String)
    ensures
        r@ == projects_file(string_views(projects@)),
{
    FileProjectRepository::new(data_dir).save(projects)
}

} // verus!
