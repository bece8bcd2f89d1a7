//! Repository records, their list-item view, and the state of a run.
use vstd::prelude::*;

verus! {

/// A topic tag of a repository.
#[derive(Debug, Clone, PartialEq, Eq)]
pub struct RepositoryTopic {
    pub name: String,
}

/// One repository as the listing reports it. Timestamps are kept as the listing wrote them.
#[derive(Debug, Clone, PartialEq, Eq)]
pub struct GitRepo {
    pub created_at: String,
    pub description: String,
    pub disk_usage: u32,
    pub id: String,
    pub name: String,
    pub pushed_at: String,
    pub repository_topics: Option<Vec<RepositoryTopic>>,
    pub ssh_url: String,
    pub stargazer_count: u32,
    pub updated_at: String,
    pub url: String,
}

/// What a Markdown list item shows of a repository.
#[derive(Debug, Clone, PartialEq, Eq)]
pub struct GitRepoListItem {
    /// Repository name.
    pub name: String,
    /// URL of the repository.
    pub url: String,
    /// Description of the repository; may be empty.
    pub description: String,
}

impl GitRepoListItem {
    /// The name, URL and description of `repo`.
    pub fn new(repo: &GitRepo) -> (r: Self)
        ensures
            r.name@ == repo.name@,
            r.url@ == repo.url@,
            r.description@ == repo.description@,
    {
        GitRepoListItem {
            name: repo.name.clone(),
            url: repo.url.clone(),
            description: repo.description.clone(),
        }
    }
}

/// Whether `items` is the list-item view of `repos`, item for record.
pub open spec fn projects(items: Seq<GitRepoListItem>, repos: Seq<GitRepo>) -> bool {
    &&& items.len() == repos.len()
    &&& forall|k: int|
        0 <= k < repos.len() ==> {
            &&& (#[trigger] items[k]).name@ == repos[k].name@
            &&& items[k].url@ == repos[k].url@
            &&& items[k].description@ == repos[k].description@
        }
}

/// The list-item views of `repos`, in the same order.
pub fn list_items(repos: &Vec<GitRepo>) -> (r: Vec<GitRepoListItem>)
    ensures
        projects(r@, repos@),
{
    let mut items: Vec<GitRepoListItem> = Vec::new();
    let mut k: usize = 0;
    while k < repos.len()
        invariant
            k <= repos@.len(),
            projects(items@, repos@.subrange(0, k as int)),
        decreases repos@.len() - k,
    {
        items.push(GitRepoListItem::new(&repos[k]));
        k = k + 1;
    }
    assert(repos@.subrange(0, repos@.len() as int) =~= repos@);
    items
}

/// A repository summary whose fields may each be unset.
#[derive(Debug, Clone, PartialEq, Eq)]
#[non_exhaustive]
pub struct List {
    pub name: Option<String>,
    pub url: Option<String>,
    pub description: Option<String>,
}

impl List {
    /// A summary with no field set.
    pub fn new() -> (r: Self)
        ensures
            r.name is None,
            r.url is None,
            r.description is None,
    {
        List { name: None, url: None, description: None }
    }

    /// The summary with `name` set.
    pub fn with_name(self, name: String) -> (r: Self)
        ensures
            r.name == Some(name),
            r.url == self.url,
            r.description == self.description,
    {
        List { name: Some(name), ..self }
    }

    /// The summary with `url` set.
    pub fn with_url(self, url: String) -> (r: Self)
        ensures
            r.name == self.name,
            r.url == Some(url),
            r.description == self.description,
    {
        List { url: Some(url), ..self }
    }

    /// The summary with `description` set.
    pub fn with_description(self, description: String) -> (r: Self)
        ensures
            r.name == self.name,
            r.url == self.url,
            r.description == Some(description),
    {
        List { description: Some(description), ..self }
    }
}

impl Default for List {
    fn default() -> (r: Self)
        ensures
            r.name is None,
            r.url is None,
            r.description is None,
    {
        List::new()
    }
}

/// Where a run reads and writes: the Markdown file, its managed section, and the JSON file.
#[derive(Debug, Clone, PartialEq, Eq)]
pub struct Config {
    /// The Markdown file whose section is rewritten.
    pub markdown_path: String,
    /// The file that receives the records as JSON.
    pub json_path: String,
    /// The name of the managed section.
    pub section_tag: String,
}

impl Config {
    /// A configuration with the given paths and section name.
    pub fn new(markdown_path: String, json_path: String, section_tag: String) -> (r: Self)
        ensures
            r.markdown_path == markdown_path,
            r.json_path == json_path,
            r.section_tag == section_tag,
    {
        Config { markdown_path, json_path, section_tag }
    }
}

impl Default for Config {
    /// `README.md`, `gh_repo_list.json` and the section `tag_1`.
    fn default() -> (r: Self)
        ensures
            r.markdown_path@ == "README.md"@,
            r.json_path@ == "gh_repo_list.json"@,
            r.section_tag@ == "tag_1"@,
    {
        Config {
            markdown_path: String::from_str("README.md"),
            json_path: String::from_str("gh_repo_list.json"),
            section_tag: String::from_str("tag_1"),
        }
    }
}

/// The records of a run: as fetched, and as list items once projected.
#[derive(Debug, Clone, PartialEq, Eq)]
pub struct DB {
    pub data: Option<Vec<GitRepo>>,
    pub repo_list: Option<Vec<GitRepoListItem>>,
}

impl DB {
    /// A store that holds nothing yet.
    pub fn new() -> (r: Self)
        ensures
            r.data is None,
            r.repo_list is None,
    {
        DB { data: None, repo_list: None }
    }
}


} // verus!
