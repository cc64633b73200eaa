//! The global configuration record: the remote-service token, the editor,
//! the optional text-generation key, and named pull-request templates.

use vstd::prelude::*;
use crate::errors::{StError, StResult};
use crate::strutil::str_eq;

verus! {

/// A named pull-request description template.
#[derive(Debug, Clone, PartialEq, Eq)]
pub struct PrTemplate {
    /// The template's name, used to select it.
    pub name: String,
    /// The template's markdown body.
    pub content: String,
}

/// The mathematical model of one template.
#[verifier::ext_equal]
pub ghost struct TemplateModel {
    pub name: Seq<char>,
    pub content: Seq<char>,
}

impl View for PrTemplate {
    type V = TemplateModel;

    open spec fn view(&self) -> TemplateModel {
        TemplateModel { name: self.name@, content: self.content@ }
    }
}

/// The template named `name`, if any (first match).
pub open spec fn template_of(ts: Seq<TemplateModel>, name: Seq<char>) -> Option<TemplateModel>
    decreases ts.len(),
{
    if ts.len() == 0 {
        None
    } else if ts[0].name == name {
        Some(ts[0])
    } else {
        template_of(ts.drop_first(), name)
    }
}

/// When `ts[i]` is the first template named `name`, `template_of` returns it.
pub proof fn lemma_template_of_at(ts: Seq<TemplateModel>, name: Seq<char>, i: int)
    requires
        0 <= i < ts.len(),
        ts[i].name == name,
        forall|j: int| 0 <= j < i ==> (#[trigger] ts[j]).name != name,
    ensures
        template_of(ts, name) == Some(ts[i]),
    decreases ts.len(),
{
    if i == 0 {
    } else {
        assert forall|j: int| 0 <= j < i - 1 implies (#[trigger] ts.drop_first()[j]).name
            != name by {
            assert(ts.drop_first()[j] == ts[j + 1]);
        }
        assert(ts.drop_first()[i - 1] == ts[i]);
        lemma_template_of_at(ts.drop_first(), name, i - 1);
    }
}

/// When no template is named `name`, `template_of` returns `None`.
pub proof fn lemma_template_of_none(ts: Seq<TemplateModel>, name: Seq<char>)
    requires
        forall|j: int| 0 <= j < ts.len() ==> (#[trigger] ts[j]).name != name,
    ensures
        template_of(ts, name) is None,
    decreases ts.len(),
{
    if ts.len() > 0 {
        assert forall|j: int| 0 <= j < ts.drop_first().len() implies (
        #[trigger] ts.drop_first()[j]).name != name by {
            assert(ts.drop_first()[j] == ts[j + 1]);
        }
        lemma_template_of_none(ts.drop_first(), name);
    }
}

/// The global configuration record.
#[derive(Debug, Clone, PartialEq, Eq)]
pub struct StConfig {
    /// The token used against the remote code-review service; must be
    /// non-empty for remote commands.
    pub github_token: String,
    /// The editor program used for long-form prompts.
    pub editor: String,
    /// The optional key of the text-generation service.
    pub gemini_api_key: String,
    /// The named pull-request templates.
    pub pr_templates: Vec<PrTemplate>,
}

/// The template models of a template list, in order.
pub open spec fn template_models(ts: Seq<PrTemplate>) -> Seq<TemplateModel> {
    ts.map_values(|t: PrTemplate| t@)
}

impl Default for StConfig {
    /// An empty configuration: every field blank, no templates.
    fn default() -> (r: StConfig)
        ensures
            r.github_token@ == Seq::<char>::empty(),
            r.editor@ == Seq::<char>::empty(),
            r.gemini_api_key@ == Seq::<char>::empty(),
            r.pr_templates@.len() == 0,
    {
        StConfig {
            github_token: String::new(),
            editor: String::new(),
            gemini_api_key: String::new(),
            pr_templates: Vec::new(),
        }
    }
}

impl StConfig {
    /// Checks the configuration: the remote-service token must be
    /// non-empty.
    pub fn validate(&self) -> (r: StResult<()>)
        ensures
            self.github_token@.len() > 0 <==> r is Ok,
            r matches Err(e) ==> e matches StError::DecodingError(d) && d@
                == "github-token must not be empty"@,
    {
        if self.github_token.as_str().is_empty() {
            Err(StError::DecodingError("github-token must not be empty".to_owned()))
        } else {
            Ok(())
        }
    }

    /// The names of the configured templates, in order.
    pub fn template_names(&self) -> (r: Vec<String>)
        ensures
            r@.len() == self.pr_templates@.len(),
            forall|i: int|
                0 <= i < r@.len() ==> (#[trigger] r@[i])@ == self.pr_templates@[i].name@,
    {
        let mut r: Vec<String> = Vec::new();
        let mut i: usize = 0;
        while i < self.pr_templates.len()
            invariant
                i <= self.pr_templates@.len(),
                r@.len() == i,
                forall|j: int|
                    0 <= j < i ==> (#[trigger] r@[j])@ == self.pr_templates@[j].name@,
            decreases self.pr_templates@.len() - i,
        {
            r.push(self.pr_templates[i].name.clone());
            i = i + 1;
        }
        r
    }

    /// Looks the template named `name` up.
    pub fn get_template(&self, name: &str) -> (r: Option<&PrTemplate>)
        ensures
            match r {
                Some(t) => template_of(template_models(self.pr_templates@), name@) == Some(t@),
                None => template_of(template_models(self.pr_templates@), name@) is None,
            },
    {
        let ghost ts = template_models(self.pr_templates@);
        let mut i: usize = 0;
        while i < self.pr_templates.len()
            invariant
                i <= self.pr_templates@.len(),
                ts == template_models(self.pr_templates@),
                forall|j: int| 0 <= j < i ==> (#[trigger] ts[j]).name != name@,
            decreases self.pr_templates@.len() - i,
        {
            if str_eq(self.pr_templates[i].name.as_str(), name) {
                proof {
                    assert(ts[i as int].name == name@);
                    lemma_template_of_at(ts, name@, i as int);
                }
                return Some(&self.pr_templates[i]);
            }
            proof {
                assert(ts[i as int].name != name@);
            }
            i = i + 1;
        }
        proof {
            lemma_template_of_none(ts, name@);
        }
        None
    }
}

} // verus!
