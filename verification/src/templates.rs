//! The text files a new wiki project starts with.

use vstd::prelude::*;

verus! {

/// The page types, naming rules and front matter every project starts with (`schema.md`).
pub const SCHEMA_TEMPLATE: &'static str = "# Wiki Schema\n\n## Page Types\n\n| Type | Directory | Purpose |\n|------|-----------|---------|\n| entity | wiki/entities/ | Named things (models, companies, people, datasets) |\n| concept | wiki/concepts/ | Ideas, techniques, phenomena |\n| source | wiki/sources/ | Papers, articles, talks, blog posts |\n| query | wiki/queries/ | Open questions under investigation |\n| comparison | wiki/comparisons/ | Side-by-side analysis of related entities |\n| synthesis | wiki/synthesis/ | Cross-cutting summaries and conclusions |\n\n## Naming Conventions\n\n- Files: `kebab-case.md`\n- Entities: match official name where possible (e.g., `gpt-4.md`, `openai.md`)\n- Concepts: descriptive noun phrases (e.g., `chain-of-thought.md`)\n- Sources: `author-year-slug.md` (e.g., `wei-2022-chain-of-thought.md`)\n- Queries: question as slug (e.g., `does-scale-improve-reasoning.md`)\n\n## Frontmatter\n\nAll pages must include YAML frontmatter:\n\n```yaml\n---\ntype: entity | concept | source | query | comparison | synthesis | overview\ntitle: Human-readable title\ntags: []\nrelated: []\ncreated: YYYY-MM-DD\nupdated: YYYY-MM-DD\n---\n```\n\nSource pages also include:\n```yaml\nauthors: []\nyear: YYYY\nurl: \"\"\nvenue: \"\"\n```\n\n## Cross-referencing Rules\n\n- Use `[[page-slug]]` syntax to link between wiki pages\n- Every entity and concept should appear in `wiki/index.md`\n- Queries link to the sources and concepts they draw on\n- Synthesis pages cite all contributing sources via `related:`\n";

/// The blank statement of purpose a project starts with (`purpose.md`).
pub const PURPOSE_TEMPLATE: &'static str = "# Project Purpose\n\n## Goal\n\n<!-- What are you trying to understand or build? -->\n\n## Key Questions\n\n<!-- List the primary questions driving this research -->\n\n1.\n2.\n3.\n\n## Scope\n\n**In scope:**\n-\n\n**Out of scope:**\n-\n\n## Thesis\n\n> TBD\n";

/// The empty index of a new wiki (`wiki/index.md`).
pub const INDEX_TEMPLATE: &'static str = "# Wiki Index\n\n## Entities\n\n## Concepts\n\n## Sources\n\n## Queries\n\n## Comparisons\n\n## Synthesis\n";

/// The empty overview page of a new wiki (`wiki/overview.md`).
pub const OVERVIEW_TEMPLATE: &'static str = "---\ntype: overview\ntitle: Project Overview\ntags: []\nrelated: []\n---\n\n# Overview\n\n<!-- Provide a high-level summary of what this wiki covers and its current state. -->\n";

/// Obsidian settings of a new project (`.obsidian/app.json`).
pub const OBSIDIAN_APP_CONFIG: &'static str = "{\n  \"attachmentFolderPath\": \"raw/assets\",\n  \"userIgnoreFilters\": [\".cache\", \".llm-wiki\"],\n  \"useMarkdownLinks\": false,\n  \"newLinkFormat\": \"shortest\",\n  \"showUnsupportedFiles\": false\n}";

/// Obsidian appearance of a new project (`.obsidian/appearance.json`).
pub const OBSIDIAN_APPEARANCE: &'static str = "{\n  \"baseFontSize\": 16,\n  \"theme\": \"obsidian\"\n}";

/// Obsidian core plugins of a new project (`.obsidian/core-plugins.json`).
pub const OBSIDIAN_CORE_PLUGINS: &'static str = "{\n  \"file-explorer\": true,\n  \"global-search\": true,\n  \"graph\": true,\n  \"backlink\": true,\n  \"tag-pane\": true,\n  \"page-preview\": true,\n  \"outgoing-link\": true,\n  \"starred\": true\n}";

} // verus!
