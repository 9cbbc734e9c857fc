# awesome-skills-cli

A command-line catalog of agent skills: list, search, inspect and install
skills (markdown playbooks) into a skills directory, and install the tool's own
meta skills.

The library under `src/` holds the catalog logic, verified with Verus:

- `text`: character-sequence operations (prefix, substring, code-point order,
  whitespace splitting and trimming, decimal numbers, splitting on a separator)
  stated over `Seq<char>`;
- `keyed`: string pairs used as maps, where a later pair replaces an earlier one;
- `repository`: the catalog, alias resolution, listing by category, search and
  suggestions for unknown ids;
- `ranking`: search scores and the order of search results;
- `meta_repository`: the meta skills shipped with the tool;
- `commands`: what each command computes and prints.

`app/` is the program around it: argument parsing, loading the catalog data
(`skills_index.json`, `data/aliases.json`, `skills/` and `src/skills/` under the
directory named by `AWESOME_SKILLS_HOME`, or the current directory), terminal
output, writing skill files, and the self-update over the network.
