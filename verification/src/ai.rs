//! Prompt construction for the optional pull-request description generator.
//!
//! The network call to the text-generation service happens outside; what is
//! verified here is the exact text handed to it — the prompt assembled from
//! the pull request's title, branches, commit messages, diff, and an
//! optional template.

use vstd::prelude::*;
use vstd::string::StringExecFns;
use crate::config::PrTemplate;
use crate::ctx::name_views;

verus! {

/// The commit messages rendered as a bulleted list, one line per commit.
pub open spec fn commit_lines(cs: Seq<Seq<char>>, k: int) -> Seq<char>
    decreases k,
{
    if k <= 0 {
        Seq::empty()
    } else if k == 1 {
        "- "@ + cs[0]
    } else {
        commit_lines(cs, k - 1) + "\n"@ + "- "@ + cs[k - 1]
    }
}

/// The commit section of a prompt: empty when there are no commits, else a
/// heading followed by the bulleted commit messages.
pub open spec fn commits_section_spec(cs: Seq<Seq<char>>) -> Seq<char> {
    if cs.len() == 0 {
        Seq::empty()
    } else {
        "\n\nCommit messages:\n"@ + commit_lines(cs, cs.len() as int) + "\n"@
    }
}

/// Builds the commit section for a prompt.
pub fn build_commits_section(commits: &Vec<String>) -> (r: String)
    ensures
        r@ == commits_section_spec(name_views(commits@)),
{
    let ghost cs = name_views(commits@);
    if commits.len() == 0 {
        let r = String::new();
        proof {
            assert(r@ =~= commits_section_spec(cs));
        }
        return r;
    }
    let mut list: String = String::new();
    let mut i: usize = 0;
    while i < commits.len()
        invariant
            i <= commits@.len(),
            cs == name_views(commits@),
            list@ == commit_lines(cs, i as int),
        decreases commits@.len() - i,
    {
        let ghost pre = list@;
        if i == 0 {
            list.append("- ");
            list.append(commits[i].as_str());
        } else {
            list.append("\n");
            list.append("- ");
            list.append(commits[i].as_str());
        }
        proof {
            assert(list@ =~= commit_lines(cs, i as int + 1));
        }
        i = i + 1;
    }
    let mut r: String = "\n\nCommit messages:\n".to_owned();
    r.append(list.as_str());
    r.append("\n");
    proof {
        assert(r@ =~= commits_section_spec(cs));
    }
    r
}

/// The prompt sent to the text-generation service for a plain pull-request
/// description.
pub open spec fn gemini_prompt_spec(
    title: Seq<char>,
    branch: Seq<char>,
    parent: Seq<char>,
    commits: Seq<Seq<char>>,
    diff: Seq<char>,
) -> Seq<char> {
    "You are a technical writer creating a pull request description.\n\nPR Title: "@ + title
        + "\nBranch: "@ + branch + " -> "@ + parent + commits_section_spec(commits)
        + "\n\nGit diff:\n```\n"@ + diff
        + "\n```\n\nWrite a concise pull request description in markdown format. Requirements:\n- Maximum 300 words\n- Use markdown formatting (headers, lists, code blocks, etc.)\n- The description should align with and expand upon the PR title\n- Focus on WHAT changed and WHY (use commit messages for context)\n- Include: summary, key changes, and any relevant context\n- Be specific and technical\n- Do NOT repeat the PR title in the description\n\nGenerate the description now:"@
}

/// Builds the plain description prompt from the pull request's title, the
/// branch and its parent, the commit messages between them, and the diff.
pub fn gemini_prompt(
    title: &str,
    branch_name: &str,
    parent_name: &str,
    commits: &Vec<String>,
    diff: &str,
) -> (r: String)
    ensures
        r@ == gemini_prompt_spec(title@, branch_name@, parent_name@, name_views(commits@), diff@),
{
    let section = build_commits_section(commits);
    let mut r: String =
        "You are a technical writer creating a pull request description.\n\nPR Title: ".to_owned();
    r.append(title);
    r.append("\nBranch: ");
    r.append(branch_name);
    r.append(" -> ");
    r.append(parent_name);
    r.append(section.as_str());
    r.append("\n\nGit diff:\n```\n");
    r.append(diff);
    r.append(
        "\n```\n\nWrite a concise pull request description in markdown format. Requirements:\n- Maximum 300 words\n- Use markdown formatting (headers, lists, code blocks, etc.)\n- The description should align with and expand upon the PR title\n- Focus on WHAT changed and WHY (use commit messages for context)\n- Include: summary, key changes, and any relevant context\n- Be specific and technical\n- Do NOT repeat the PR title in the description\n\nGenerate the description now:",
    );
    proof {
        assert(r@ =~= gemini_prompt_spec(
            title@,
            branch_name@,
            parent_name@,
            name_views(commits@),
            diff@,
        ));
    }
    r
}

/// The prompt sent to the text-generation service when a named template
/// shapes the description.
pub open spec fn gemini_template_prompt_spec(
    tpl_name: Seq<char>,
    tpl_content: Seq<char>,
    title: Seq<char>,
    branch: Seq<char>,
    parent: Seq<char>,
    commits: Seq<Seq<char>>,
    diff: Seq<char>,
) -> Seq<char> {
    "You are a technical writer creating a pull request description using a specific template.\n\nPR Title: "@
        + title + "\nBranch: "@ + branch + " -> "@ + parent + commits_section_spec(commits)
        + "\n\nGit diff:\n```\n"@ + diff + "\n```\n\nTemplate to follow (\""@ + tpl_name
        + "\"):\n```\n"@ + tpl_content
        + "\n```\n\nWrite a pull request description following the template structure above. Requirements:\n- Follow the template structure exactly\n- Fill in each section with relevant content from the PR context\n- Maximum 400 words\n- Use markdown formatting\n- The description should align with and expand upon the PR title\n- Focus on WHAT changed and WHY (use commit messages for context)\n- Be specific and technical\n- Do NOT repeat the PR title in the description\n- Do NOT include the template name in the output\n\nGenerate the description now:"@
}

/// Builds the templated description prompt.
pub fn gemini_template_prompt(
    template: &PrTemplate,
    title: &str,
    branch_name: &str,
    parent_name: &str,
    commits: &Vec<String>,
    diff: &str,
) -> (r: String)
    ensures
        r@ == gemini_template_prompt_spec(
            template.name@,
            template.content@,
            title@,
            branch_name@,
            parent_name@,
            name_views(commits@),
            diff@,
        ),
{
    let section = build_commits_section(commits);
    let mut r: String =
        "You are a technical writer creating a pull request description using a specific template.\n\nPR Title: ".to_owned();
    r.append(title);
    r.append("\nBranch: ");
    r.append(branch_name);
    r.append(" -> ");
    r.append(parent_name);
    r.append(section.as_str());
    r.append("\n\nGit diff:\n```\n");
    r.append(diff);
    r.append("\n```\n\nTemplate to follow (\"");
    r.append(template.name.as_str());
    r.append("\"):\n```\n");
    r.append(template.content.as_str());
    r.append(
        "\n```\n\nWrite a pull request description following the template structure above. Requirements:\n- Follow the template structure exactly\n- Fill in each section with relevant content from the PR context\n- Maximum 400 words\n- Use markdown formatting\n- The description should align with and expand upon the PR title\n- Focus on WHAT changed and WHY (use commit messages for context)\n- Be specific and technical\n- Do NOT repeat the PR title in the description\n- Do NOT include the template name in the output\n\nGenerate the description now:",
    );
    proof {
        assert(r@ =~= gemini_template_prompt_spec(
            template.name@,
            template.content@,
            title@,
            branch_name@,
            parent_name@,
            name_views(commits@),
            diff@,
        ));
    }
    r
}

} // verus!
