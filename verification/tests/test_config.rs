use st::config::{PrTemplate, StConfig};

#[test]
fn test_config_defaults() {
    let config = StConfig::default();
    assert_eq!(config.github_token, "");
    assert_eq!(config.editor, "");
    assert_eq!(config.gemini_api_key, "");
    assert!(config.pr_templates.is_empty());
}

#[test]
fn test_config_validate_valid() {
    let valid_config = StConfig {
        github_token: "ghp_test123".to_string(),
        editor: "vim".to_string(),
        gemini_api_key: "".to_string(),
        pr_templates: vec![],
    };
    assert!(valid_config.validate().is_ok());
}

#[test]
fn test_config_validate_invalid() {
    let invalid_config = StConfig {
        github_token: "".to_string(),
        editor: "vim".to_string(),
        gemini_api_key: "test_key".to_string(),
        pr_templates: vec![],
    };
    assert!(invalid_config.validate().is_err());
}

#[test]
fn test_config_gemini_only() {
    let config = StConfig {
        github_token: "ghp_test".to_string(),
        editor: "nano".to_string(),
        gemini_api_key: "gemini_key_123".to_string(),
        pr_templates: vec![],
    };

    assert!(config.validate().is_ok());
    assert_eq!(config.gemini_api_key, "gemini_key_123");
}

#[test]
fn test_config_with_templates() {
    let config = StConfig {
        github_token: "ghp_test".to_string(),
        editor: "nano".to_string(),
        gemini_api_key: "".to_string(),
        pr_templates: vec![
            PrTemplate {
                name: "feature".to_string(),
                content: "## Summary\nFeature description.".to_string(),
            },
            PrTemplate {
                name: "bugfix".to_string(),
                content: "## Problem\nBug description.".to_string(),
            },
        ],
    };

    assert!(config.validate().is_ok());
    assert_eq!(config.template_names(), vec!["feature", "bugfix"]);
    assert!(config.get_template("feature").is_some());
    assert!(config.get_template("bugfix").is_some());
    assert!(config.get_template("nonexistent").is_none());
}

#[test]
fn test_config_no_templates() {
    let config = StConfig {
        github_token: "ghp_test".to_string(),
        editor: "nano".to_string(),
        gemini_api_key: "key".to_string(),
        pr_templates: vec![],
    };

    assert!(config.template_names().is_empty());
    assert!(config.get_template("any").is_none());
}

#[test]
fn test_config_template_lookup_returns_content() {
    let config = StConfig {
        github_token: "ghp_test".to_string(),
        editor: "nano".to_string(),
        gemini_api_key: "".to_string(),
        pr_templates: vec![PrTemplate {
            name: "refactor".to_string(),
            content: "## Motivation\nWhy refactor?".to_string(),
        }],
    };

    let t = config.get_template("refactor").unwrap();
    assert_eq!(t.content, "## Motivation\nWhy refactor?");
}
