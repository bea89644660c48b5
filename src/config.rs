use vstd::prelude::*;

verus! {

/// One external command attached to a recipe.
#[derive(Debug)]
pub struct Tool {
    /// Executable name or path.
    pub cmd: String,
    /// Argument templates, in order.
    pub args: Vec<String>,
    /// Whether the tool runs once per source file instead of once per recipe.
    pub concurrent: bool,
}

/// One buildable unit of a configuration.
#[derive(Debug)]
pub struct Recipe {
    pub name: String,
    /// Glob-or-literal source patterns, relative to the project root.
    pub sources: Vec<String>,
    /// Include directories, relative to the project root.
    pub includes: Option<Vec<String>>,
    /// The recipe's tools, each under its name.
    pub tools: Vec<(String, Tool)>,
    /// Names of the recipes this one depends on.
    pub dependencies: Option<Vec<String>>,
}

/// The recipes of one build file, in declaration order.
#[derive(Debug)]
pub struct BuildConfig {
    pub recipes: Vec<Recipe>,
}

/// A loaded configuration together with the absolute project root.
#[derive(Debug)]
pub struct ProjectConfig {
    pub build_config: BuildConfig,
    pub root_dir: String,
}

impl Recipe {
    /// The dependency names of the recipe; none when the field is absent.
    pub open spec fn deps(self) -> Seq<String> {
        match self.dependencies {
            Some(d) => d@,
            None => Seq::empty(),
        }
    }

    /// No two tools of the recipe share a name (the build file holds them in a
    /// map); the executor orders tools by name and relies on it.
    pub open spec fn tools_named_once(self) -> bool {
        forall|i: int, j: int| 0 <= i < j < self.tools@.len() ==> self.tools@[i].0@ != self.tools@[j].0@
    }

    /// The include directories of the recipe; none when the field is absent.
    pub open spec fn include_dirs(self) -> Seq<String> {
        match self.includes {
            Some(d) => d@,
            None => Seq::empty(),
        }
    }
}

impl Recipe {
    /// Whether no two tools of the recipe share a name.
    pub fn has_unique_tool_names(&self) -> (r: bool)
        ensures
            r == self.tools_named_once(),
    {
        let n = self.tools.len();
        let mut i: usize = 0;
        while i < n
            invariant
                n == self.tools@.len(),
                i <= n,
                forall|a: int, b: int| 0 <= a < b < n && a < i ==> self.tools@[a].0@ != self.tools@[b].0@,
            decreases n - i,
        {
            let mut j: usize = i + 1;
            while j < n
                invariant
                    n == self.tools@.len(),
                    i < n,
                    i < j <= n,
                    forall|a: int, b: int| 0 <= a < b < n && a < i ==> self.tools@[a].0@ != self.tools@[b].0@,
                    forall|b: int| i < b < j ==> self.tools@[i as int].0@ != self.tools@[b].0@,
                decreases n - j,
            {
                if self.tools[i].0 == self.tools[j].0 {
                    return false;
                }
                j += 1;
            }
            i += 1;
        }
        true
    }
}

} // verus!
